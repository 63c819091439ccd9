//! Lowering of the typed syntax tree to the high-level IR: expressions are
//! allocated in an arena after their operands, identifiers are interned,
//! and misplaced `break`/`continue`, empty blocks and literal divisions by
//! zero are reported.
use vstd::prelude::*;

use crate::ast;
use crate::ast::{drop_one, else_branch_node, label_after_colon};
use crate::text::spec_parse_unsigned;
use crate::cst::{
    is_expression_kind, first_of, nodes_where, nth_of, tokens_where, Element, KindClass, SyntaxKind, SyntaxTree,
    TextRange, Token,
};
use crate::hir::{
    all_below, arena_wf, block_item_below, expr_below, item_below, lemma_expr_below_mono,
    lemma_item_below_mono, lemma_params_below_mono, opt_below, params_below,
    BlockItem, Definition, ExprIdx, Expression, FunctionParam, Ident, InfixOp, Interner, Item,
    Literal, ModuleId, PrefixOp, ResolvedIdent,
};
use crate::hir_shape::{
    arena_made_from, expr_matches, expr_shape, extends, lemma_expr_matches_mono, lemma_arena_names_mono, lemma_arena_push,
    lemma_param_shape_mono, lemma_params_shape_mono, made_from, opt_made_from, first_expr, second_expr,
    first_node_of, function_parts_shape, block_item_shape, block_items_shape, block_lowering,
    lemma_block_items_mono, lemma_item_shape_mono, items_shape, top_lowering, all_warranted,
    arena_reported, diag_warranted, reported, names_token, name_token, lemma_arena_reported_extends, lemma_reported_extends,
    node_report, item_value_node, divides_by_zero_node, scope_depth, scopes_nested, lemma_scopes_push,
    event_warranted, events_warranted, opt_text, arena_recorded, recorded, has_definition,
    item_events_recorded, lemma_arena_recorded_extends, lemma_recorded_extends,
    lemma_item_events_extends, has_reference, lemma_has_reference_extends,
    lemma_has_definition_extends, item_shape, named_params, node_span, param_shape, params_shape,
};
use crate::literal::{literal_view, spec_literal_of, LiteralValue, LiteralView};
use crate::text::{chars_of, doc_text, spec_doc_text, string_from_chars};

verus! {

/// A span of source text: its start offset and its length.
#[derive(Debug, Clone, Copy, PartialEq, Eq, Structural)]
pub struct SourceSpan {
    pub offset: usize,
    pub len: usize,
}

/// Problems found while lowering.
#[derive(Debug, Clone, PartialEq, Eq)]
pub enum HirError {
    /// A division or remainder whose divisor is the literal zero.
    DivisionByZero { span: SourceSpan },
    /// A block with no item.
    EmptyBlock { span: SourceSpan },
    /// A `break` outside of any loop.
    BreakOutsideLoop { span: SourceSpan },
    /// A `continue` outside of any loop.
    ContinueOutsideLoop { span: SourceSpan },
    /// A `break` or `continue` naming a label that no enclosing loop has.
    UnknownLoopLabel { label: String, span: SourceSpan },
}

/// What lowering reports to the symbol table, in order.
#[derive(Debug, Clone)]
pub enum SymbolEvent {
    /// A variable or function is defined.
    Define {
        name: String,
        def_span: TextRange,
        name_span: TextRange,
        doc_comment: Option<String>,
    },
    /// A name is referred to.
    Reference { name: String, span: TextRange },
    /// A block scope opens.
    PushScope,
    /// A block scope closes.
    PopScope,
}

/// A symbol of a module as seen by name resolution: its name, and the module
/// it is re-exported from when it is a re-export.
#[derive(Debug, Clone)]
pub struct ResolvedSymbol {
    pub name: String,
    pub reexported_from: Option<ModuleId>,
}

/// The symbols of one module.
#[derive(Debug, Clone)]
pub struct ModuleSymbols {
    pub module_id: ModuleId,
    pub symbols: Vec<ResolvedSymbol>,
}

/// Resolution data for lowering: the current module and the symbols of all
/// modules.
#[derive(Debug, Clone)]
pub struct ResolutionData {
    pub module_id: ModuleId,
    pub symbol_tables: Vec<ModuleSymbols>,
}

/// The span of a text range.
pub open spec fn spec_to_span(r: TextRange) -> SourceSpan {
    SourceSpan { offset: r.start as usize, len: (r.end - r.start) as usize }
}

/// The span of a text range.
pub fn to_span(r: TextRange) -> (s: SourceSpan)
    requires
        r.start <= r.end,
    ensures
        s == spec_to_span(r),
{
    SourceSpan { offset: r.start as usize, len: (r.end - r.start) as usize }
}

/// The text of the comments gathered so far, one per line.
pub open spec fn join_lines(cs: Seq<Seq<char>>) -> Seq<char>
    decreases cs.len(),
{
    if cs.len() == 0 {
        Seq::empty()
    } else if cs.len() == 1 {
        cs[0]
    } else {
        join_lines(cs.drop_last()) + seq!['\n'] + cs.last()
    }
}

/// Scan of the leading trivia of a node for doc comments: each doc comment
/// adds its text; two newlines after a doc comment discard what was
/// gathered; whitespace and regular comments are skipped; anything else ends
/// the scan.
pub open spec fn doc_scan(elems: Seq<Element>, cs: Seq<Seq<char>>, nl: nat, found: bool) -> Seq<
    Seq<char>,
>
    decreases elems.len(),
{
    if elems.len() == 0 {
        cs
    } else {
        let rest = elems.drop_first();
        match elems[0] {
            Element::Node(_) => cs,
            Element::Token(t) => if t.kind == SyntaxKind::DocComment {
                doc_scan(rest, cs.push(spec_doc_text(t.text@)), 0, true)
            } else if t.kind == SyntaxKind::NewLine {
                if found && nl + 1 >= 2 {
                    doc_scan(rest, Seq::empty(), nl + 1, false)
                } else {
                    doc_scan(rest, cs, nl + 1, found)
                }
            } else if t.kind == SyntaxKind::Whitespace || t.kind == SyntaxKind::Comment {
                doc_scan(rest, cs, nl, found)
            } else {
                cs
            },
        }
    }
}

/// The doc comment of a node: its gathered doc comment texts joined by
/// newlines, if there is any.
pub open spec fn spec_doc_comment(elems: Seq<Element>) -> Option<Seq<char>> {
    let cs = doc_scan(elems, Seq::empty(), 0, false);
    if cs.len() == 0 {
        None
    } else {
        Some(join_lines(cs))
    }
}

/// A token that the doc comment scan reads past: whitespace, a comment, a
/// newline or a doc comment.
pub open spec fn scanned_trivia(el: Element) -> bool {
    el matches Element::Token(t) && (t.kind == SyntaxKind::Whitespace || t.kind == SyntaxKind::Comment
        || t.kind == SyntaxKind::NewLine || t.kind == SyntaxKind::DocComment)
}

/// Element `el` is a token of kind `k`.
pub open spec fn token_of(el: Element, k: SyntaxKind) -> bool {
    el matches Element::Token(t) && t.kind == k
}

/// The first `e` elements are the leading trivia of `elems`: all scanned
/// trivia, and the element after them (if any) is not.
pub open spec fn leading_trivia(elems: Seq<Element>, e: int) -> bool {
    &&& 0 <= e <= elems.len()
    &&& forall|j: int| 0 <= j < e ==> scanned_trivia(#[trigger] elems[j])
    &&& e < elems.len() ==> !scanned_trivia(elems[e])
}

/// Scanning a prefix of trivia leaves some state from which the rest is
/// scanned.
proof fn lemma_doc_scan_skip(elems: Seq<Element>, cs: Seq<Seq<char>>, nl: nat, found: bool, k: int) -> (st: (
    Seq<Seq<char>>,
    nat,
    bool,
))
    requires
        0 <= k <= elems.len(),
        forall|j: int| 0 <= j < k ==> scanned_trivia(#[trigger] elems[j]),
    ensures
        doc_scan(elems, cs, nl, found) == doc_scan(elems.skip(k), st.0, st.1, st.2),
    decreases k,
{
    if k == 0 {
        assert(elems.skip(0) =~= elems);
        (cs, nl, found)
    } else {
        let rest = elems.drop_first();
        assert(scanned_trivia(elems[0]));
        assert forall|j: int| 0 <= j < k - 1 implies scanned_trivia(#[trigger] rest[j]) by {
            assert(rest[j] == elems[j + 1]);
            assert(scanned_trivia(elems[j + 1]));
        }
        assert(rest.skip(k - 1) =~= elems.skip(k));
        if let Element::Token(t) = elems[0] {
            if t.kind == SyntaxKind::DocComment {
                lemma_doc_scan_skip(rest, cs.push(spec_doc_text(t.text@)), 0, true, k - 1)
            } else if t.kind == SyntaxKind::NewLine {
                if found && nl + 1 >= 2 {
                    lemma_doc_scan_skip(rest, Seq::empty(), nl + 1, false, k - 1)
                } else {
                    lemma_doc_scan_skip(rest, cs, nl + 1, found, k - 1)
                }
            } else {
                lemma_doc_scan_skip(rest, cs, nl, found, k - 1)
            }
        } else {
            (cs, nl, found)
        }
    }
}

/// After a doc comment, with no other doc comment in the leading trivia,
/// two more newlines (`q1 < q2`, or one more when one was already read)
/// leave nothing gathered.
proof fn lemma_doc_scan_blank(
    xs: Seq<Element>,
    cs: Seq<Seq<char>>,
    nl: nat,
    found: bool,
    e: int,
    q1: int,
    q2: int,
)
    requires
        leading_trivia(xs, e),
        forall|j: int| 0 <= j < e ==> !token_of(#[trigger] xs[j], SyntaxKind::DocComment),
        found ==> nl <= 1,
        found && nl == 0 ==> 0 <= q1 < q2 < e && token_of(xs[q1], SyntaxKind::NewLine) && token_of(
            xs[q2],
            SyntaxKind::NewLine,
        ),
        found && nl == 1 ==> 0 <= q2 < e && token_of(xs[q2], SyntaxKind::NewLine),
        !found ==> cs.len() == 0,
    ensures
        doc_scan(xs, cs, nl, found).len() == 0,
    decreases xs.len(),
{
    if xs.len() > 0 {
        let rest = xs.drop_first();
        if e > 0 {
            assert(scanned_trivia(xs[0]));
            assert(!token_of(xs[0], SyntaxKind::DocComment));
            assert forall|j: int| 0 <= j < e - 1 implies scanned_trivia(#[trigger] rest[j]) by {
                assert(rest[j] == xs[j + 1]);
                assert(scanned_trivia(xs[j + 1]));
            }
            assert forall|j: int| 0 <= j < e - 1 implies !token_of(#[trigger] rest[j], SyntaxKind::DocComment) by {
                assert(rest[j] == xs[j + 1]);
                assert(!token_of(xs[j + 1], SyntaxKind::DocComment));
            }
            if e - 1 < rest.len() {
                assert(rest[e - 1] == xs[e]);
            }
            assert(leading_trivia(rest, e - 1));
            if let Element::Token(t) = xs[0] {
                if t.kind == SyntaxKind::NewLine {
                    if found && nl + 1 >= 2 {
                        lemma_doc_scan_blank(rest, Seq::empty(), nl + 1, false, e - 1, q1 - 1, q2 - 1);
                    } else {
                        if found {
                            assert(rest[q2 - 1] == xs[q2]);
                        }
                        lemma_doc_scan_blank(rest, cs, nl + 1, found, e - 1, q1 - 1, q2 - 1);
                    }
                } else {
                    if found && nl == 0 {
                        assert(q1 != 0);
                        assert(rest[q1 - 1] == xs[q1]);
                    }
                    if found {
                        assert(q2 != 0);
                        assert(rest[q2 - 1] == xs[q2]);
                    }
                    lemma_doc_scan_blank(rest, cs, nl, found, e - 1, q1 - 1, q2 - 1);
                }
            }
        }
    }
}

/// A blank line discards a doc comment: when, in the leading trivia of a
/// node, the last doc comment (at `p`) is followed by two newlines (at `q1`
/// and `q2`, with only whitespace or comments besides), the node has no doc
/// comment.
pub proof fn law_blank_line_discards_doc_comment(elems: Seq<Element>, e: int, p: int, q1: int, q2: int)
    requires
        leading_trivia(elems, e),
        0 <= p < q1 < q2 < e,
        token_of(elems[p], SyntaxKind::DocComment),
        token_of(elems[q1], SyntaxKind::NewLine),
        token_of(elems[q2], SyntaxKind::NewLine),
        forall|j: int| p < j < e ==> !token_of(#[trigger] elems[j], SyntaxKind::DocComment),
    ensures
        spec_doc_comment(elems) is None,
{
    let st = lemma_doc_scan_skip(elems, Seq::empty(), 0, false, p);
    let at = elems.skip(p);
    let xs = elems.skip(p + 1);
    assert(at[0] == elems[p]);
    assert(at.drop_first() =~= xs);
    let t = elems[p]->Token_0;
    assert(doc_scan(at, st.0, st.1, st.2) == doc_scan(xs, st.0.push(spec_doc_text(t.text@)), 0, true));
    assert forall|j: int| 0 <= j < e - p - 1 implies scanned_trivia(#[trigger] xs[j]) by {
        assert(xs[j] == elems[j + p + 1]);
        assert(scanned_trivia(elems[j + p + 1]));
    }
    assert forall|j: int| 0 <= j < e - p - 1 implies !token_of(#[trigger] xs[j], SyntaxKind::DocComment) by {
        assert(xs[j] == elems[j + p + 1]);
        assert(!token_of(elems[j + p + 1], SyntaxKind::DocComment));
    }
    if e < elems.len() {
        assert(xs[e - p - 1] == elems[e]);
    }
    assert(xs[q1 - p - 1] == elems[q1]);
    assert(xs[q2 - p - 1] == elems[q2]);
    lemma_doc_scan_blank(
        xs,
        st.0.push(spec_doc_text(t.text@)),
        0,
        true,
        e - p - 1,
        q1 - p - 1,
        q2 - p - 1,
    );
}

/// After a doc comment, with no other doc comment in the leading trivia,
/// fewer than two more newlines keep what was gathered.
proof fn lemma_doc_scan_keep(xs: Seq<Element>, cs: Seq<Seq<char>>, nl: nat, e: int)
    requires
        leading_trivia(xs, e),
        forall|j: int| 0 <= j < e ==> !token_of(#[trigger] xs[j], SyntaxKind::DocComment),
        nl <= 1,
        nl == 1 ==> forall|j: int| 0 <= j < e ==> !token_of(#[trigger] xs[j], SyntaxKind::NewLine),
        nl == 0 ==> forall|j: int, k: int|
            0 <= j < k < e ==> !(token_of(#[trigger] xs[j], SyntaxKind::NewLine) && token_of(
                #[trigger] xs[k],
                SyntaxKind::NewLine,
            )),
    ensures
        doc_scan(xs, cs, nl, true) == cs,
    decreases xs.len(),
{
    if xs.len() > 0 && e > 0 {
        let rest = xs.drop_first();
        assert(scanned_trivia(xs[0]));
        assert(!token_of(xs[0], SyntaxKind::DocComment));
        assert forall|j: int| 0 <= j < e - 1 implies scanned_trivia(#[trigger] rest[j]) by {
            assert(rest[j] == xs[j + 1]);
            assert(scanned_trivia(xs[j + 1]));
        }
        assert forall|j: int| 0 <= j < e - 1 implies !token_of(#[trigger] rest[j], SyntaxKind::DocComment) by {
            assert(rest[j] == xs[j + 1]);
            assert(!token_of(xs[j + 1], SyntaxKind::DocComment));
        }
        if e - 1 < rest.len() {
            assert(rest[e - 1] == xs[e]);
        }
        assert(leading_trivia(rest, e - 1));
        if let Element::Token(t) = xs[0] {
            if t.kind == SyntaxKind::NewLine {
                assert(nl == 0);
                assert forall|j: int| 0 <= j < e - 1 implies !token_of(#[trigger] rest[j], SyntaxKind::NewLine) by {
                    assert(rest[j] == xs[j + 1]);
                    assert(token_of(xs[0], SyntaxKind::NewLine));
                    assert(!(token_of(xs[0], SyntaxKind::NewLine) && token_of(xs[j + 1], SyntaxKind::NewLine)));
                }
                lemma_doc_scan_keep(rest, cs, 1, e - 1);
            } else {
                if nl == 1 {
                    assert forall|j: int| 0 <= j < e - 1 implies !token_of(#[trigger] rest[j], SyntaxKind::NewLine) by {
                        assert(rest[j] == xs[j + 1]);
                        assert(!token_of(xs[j + 1], SyntaxKind::NewLine));
                    }
                } else {
                    assert forall|j: int, k: int| 0 <= j < k < e - 1 implies !(token_of(
                        #[trigger] rest[j],
                        SyntaxKind::NewLine,
                    ) && token_of(#[trigger] rest[k], SyntaxKind::NewLine)) by {
                        assert(rest[j] == xs[j + 1]);
                        assert(rest[k] == xs[k + 1]);
                        assert(!(token_of(xs[j + 1], SyntaxKind::NewLine) && token_of(xs[k + 1], SyntaxKind::NewLine)));
                    }
                }
                lemma_doc_scan_keep(rest, cs, nl, e - 1);
            }
        }
    }
}

/// The joined lines end with the last line.
proof fn lemma_join_lines_last(cs: Seq<Seq<char>>)
    requires
        cs.len() > 0,
    ensures
        join_lines(cs).len() >= cs.last().len(),
        join_lines(cs).subrange(join_lines(cs).len() - cs.last().len(), join_lines(cs).len() as int)
            == cs.last(),
{
    let j = join_lines(cs);
    if cs.len() == 1 {
        assert(j == cs[0]);
        assert(j.subrange(0, j.len() as int) =~= j);
    } else {
        let pre = join_lines(cs.drop_last()) + seq!['\n'];
        assert(j == pre + cs.last());
        assert(j.subrange(pre.len() as int, j.len() as int) =~= cs.last());
    }
}

/// A doc comment followed by at most one newline is kept: when, in the
/// leading trivia of a node, the last doc comment (at `p`) is followed by
/// fewer than two newlines, the node has a doc comment, and it ends with
/// the text of that comment.
pub proof fn law_doc_comment_kept(elems: Seq<Element>, e: int, p: int)
    requires
        leading_trivia(elems, e),
        0 <= p < e,
        token_of(elems[p], SyntaxKind::DocComment),
        forall|j: int| p < j < e ==> !token_of(#[trigger] elems[j], SyntaxKind::DocComment),
        forall|j: int, k: int|
            p < j < k < e ==> !(token_of(#[trigger] elems[j], SyntaxKind::NewLine) && token_of(
                #[trigger] elems[k],
                SyntaxKind::NewLine,
            )),
    ensures
        spec_doc_comment(elems) matches Some(s) && ({
            let d = spec_doc_text(elems[p]->Token_0.text@);
            s.len() >= d.len() && s.subrange(s.len() - d.len(), s.len() as int) == d
        }),
{
    let st = lemma_doc_scan_skip(elems, Seq::empty(), 0, false, p);
    let at = elems.skip(p);
    let xs = elems.skip(p + 1);
    assert(at[0] == elems[p]);
    assert(at.drop_first() =~= xs);
    let t = elems[p]->Token_0;
    let cs = st.0.push(spec_doc_text(t.text@));
    assert(doc_scan(at, st.0, st.1, st.2) == doc_scan(xs, cs, 0, true));
    assert forall|j: int| 0 <= j < e - p - 1 implies scanned_trivia(#[trigger] xs[j]) by {
        assert(xs[j] == elems[j + p + 1]);
        assert(scanned_trivia(elems[j + p + 1]));
    }
    assert forall|j: int| 0 <= j < e - p - 1 implies !token_of(#[trigger] xs[j], SyntaxKind::DocComment) by {
        assert(xs[j] == elems[j + p + 1]);
        assert(!token_of(elems[j + p + 1], SyntaxKind::DocComment));
    }
    assert forall|j: int, k: int| 0 <= j < k < e - p - 1 implies !(token_of(
        #[trigger] xs[j],
        SyntaxKind::NewLine,
    ) && token_of(#[trigger] xs[k], SyntaxKind::NewLine)) by {
        assert(xs[j] == elems[j + p + 1]);
        assert(xs[k] == elems[k + p + 1]);
        assert(!(token_of(elems[j + p + 1], SyntaxKind::NewLine) && token_of(elems[k + p + 1], SyntaxKind::NewLine)));
    }
    if e < elems.len() {
        assert(xs[e - p - 1] == elems[e]);
    }
    lemma_doc_scan_keep(xs, cs, 0, e - p - 1);
    assert(doc_scan(elems, Seq::empty(), 0, false) == cs);
    lemma_join_lines_last(cs);
}

/// The doc comment that precedes the content of node `id`.
pub fn extract_doc_comment(tree: &SyntaxTree, id: usize) -> (r: Option<String>)
    requires
        tree.wf(),
        id < tree.nodes@.len(),
    ensures
        r matches Some(s) ==> spec_doc_comment(tree.children_of(id)) == Some(s@),
        r is None <==> spec_doc_comment(tree.children_of(id)) is None,
{
    let children = &tree.nodes[id].children;
    let ghost all = children@;
    let ghost mut cs: Seq<Seq<char>> = Seq::empty();
    let mut joined: Vec<char> = Vec::new();
    let mut count: usize = 0;
    let mut newlines: usize = 0;
    let mut found = false;
    let mut i: usize = 0;
    assert(all.skip(0) =~= all);
    while i < children.len()
        invariant
            children@ == all,
            i <= all.len(),
            newlines <= i,
            count == cs.len(),
            count <= i,
            joined@ == join_lines(cs),
            doc_scan(all.skip(i as int), cs, newlines as nat, found) == doc_scan(
                all,
                Seq::empty(),
                0,
                false,
            ),
        ensures
            count == cs.len(),
            joined@ == join_lines(cs),
            cs == doc_scan(all, Seq::empty(), 0, false),
        decreases all.len() - i,
    {
        assert(all.skip(i as int).drop_first() =~= all.skip(i + 1));
        assert(all.skip(i as int)[0] == all[i as int]);
        if i + 1 == children.len() {
            assert(all.skip(i + 1) =~= Seq::<Element>::empty());
        }
        match &children[i] {
            Element::Node(_) => {
                break ;
            },
            Element::Token(t) => {
                if t.kind == SyntaxKind::DocComment {
                    let text = doc_text(&chars_of(t.text.as_str()));
                    proof {
                        if cs.len() > 0 {
                            assert(cs.push(text@).drop_last() =~= cs);
                        }
                    }
                    if count > 0 {
                        joined.push('\n');
                    }
                    let mut k: usize = 0;
                    let ghost base = joined@;
                    while k < text.len()
                        invariant
                            k <= text@.len(),
                            joined@ == base + text@.take(k as int),
                        decreases text@.len() - k,
                    {
                        joined.push(text[k]);
                        k = k + 1;
                        assert(joined@ =~= base + text@.take(k as int));
                    }
                    assert(text@.take(text@.len() as int) =~= text@);
                    proof {
                        if cs.len() == 0 {
                            assert(joined@ =~= join_lines(cs.push(text@)));
                        } else {
                            assert(joined@ =~= join_lines(cs.push(text@)));
                        }
                        cs = cs.push(text@);
                    }
                    count = count + 1;
                    newlines = 0;
                    found = true;
                } else if t.kind == SyntaxKind::NewLine {
                    newlines = newlines + 1;
                    if found && newlines >= 2 {
                        joined = Vec::new();
                        count = 0;
                        proof {
                            cs = Seq::empty();
                        }
                        found = false;
                    }
                } else if t.kind == SyntaxKind::Whitespace || t.kind == SyntaxKind::Comment {
                } else {
                    break ;
                }
            },
        }
        i = i + 1;
    }
    if count == 0 {
        None
    } else {
        Some(string_from_chars(&joined))
    }
}


/// `a` is a prefix of `b`.
pub open spec fn prefix_of<T>(a: Seq<T>, b: Seq<T>) -> bool {
    a.len() <= b.len() && b.subrange(0, a.len() as int) == a
}

/// Position of the first table of module `m` in `ts[i..]`.
pub open spec fn find_table(ts: Seq<ModuleSymbols>, m: ModuleId, i: int) -> Option<int>
    decreases ts.len() - i,
{
    if i < 0 || i >= ts.len() {
        None
    } else if ts[i].module_id == m {
        Some(i)
    } else {
        find_table(ts, m, i + 1)
    }
}

/// Position of the first symbol named `name` in `ss[i..]`.
pub open spec fn find_symbol(ss: Seq<ResolvedSymbol>, name: Seq<char>, i: int) -> Option<int>
    decreases ss.len() - i,
{
    if i < 0 || i >= ss.len() {
        None
    } else if ss[i].name@ == name {
        Some(i)
    } else {
        find_symbol(ss, name, i + 1)
    }
}

/// The module that a name of the current module is re-exported from, if the
/// resolution data says it is a re-export.
pub open spec fn spec_resolve(res: Option<ResolutionData>, name: Seq<char>) -> Option<ModuleId> {
    match res {
        None => None,
        Some(r) => match find_table(r.symbol_tables@, r.module_id, 0) {
            None => None,
            Some(t) => match find_symbol(r.symbol_tables@[t].symbols@, name, 0) {
                None => None,
                Some(k) => r.symbol_tables@[t].symbols@[k].reexported_from,
            },
        },
    }
}

/// The module a name of the current module is re-exported from, if any.
fn resolve_reexport(res: &Option<ResolutionData>, name: &str) -> (r: Option<ModuleId>)
    ensures
        r == spec_resolve(*res, name@),
{
    let data = match res {
        None => {
            return None;
        },
        Some(d) => d,
    };
    let owned = name.to_owned();
    let mut t: usize = 0;
    while t < data.symbol_tables.len()
        invariant
            owned@ == name@,
            *res == Some(*data),
            t <= data.symbol_tables@.len(),
            find_table(data.symbol_tables@, data.module_id, t as int) == find_table(
                data.symbol_tables@,
                data.module_id,
                0,
            ),
        decreases data.symbol_tables@.len() - t,
    {
        if data.symbol_tables[t].module_id == data.module_id {
            let syms = &data.symbol_tables[t].symbols;
            let mut k: usize = 0;
            while k < syms.len()
                invariant
                    owned@ == name@,
                    *res == Some(*data),
                    t < data.symbol_tables@.len(),
                    data.symbol_tables@[t as int].module_id == data.module_id,
                    *syms == data.symbol_tables@[t as int].symbols,
                    find_table(data.symbol_tables@, data.module_id, t as int) == find_table(
                        data.symbol_tables@,
                        data.module_id,
                        0,
                    ),
                    k <= syms@.len(),
                    find_symbol(syms@, name@, k as int) == find_symbol(syms@, name@, 0),
                decreases syms@.len() - k,
            {
                if syms[k].name == owned {
                    return syms[k].reexported_from;
                }
                k = k + 1;
            }
            return None;
        }
        t = t + 1;
    }
    None
}

/// The operator of an infix operator token.
pub open spec fn spec_infix_op(k: SyntaxKind) -> Option<InfixOp> {
    match k {
        SyntaxKind::Plus => Some(InfixOp::Add),
        SyntaxKind::Minus => Some(InfixOp::Sub),
        SyntaxKind::Asterisk => Some(InfixOp::Mul),
        SyntaxKind::Slash => Some(InfixOp::Div),
        SyntaxKind::Percent => Some(InfixOp::Mod),
        SyntaxKind::PlusDot => Some(InfixOp::AddFloat),
        SyntaxKind::MinusDot => Some(InfixOp::SubFloat),
        SyntaxKind::AsteriskDot => Some(InfixOp::MulFloat),
        SyntaxKind::SlashDot => Some(InfixOp::DivFloat),
        SyntaxKind::EqualsEquals => Some(InfixOp::Eq),
        SyntaxKind::NotEquals => Some(InfixOp::NotEq),
        SyntaxKind::GreaterThan => Some(InfixOp::Gt),
        SyntaxKind::LessThan => Some(InfixOp::Lt),
        SyntaxKind::GreaterThanOrEqual => Some(InfixOp::Gte),
        SyntaxKind::LessThanOrEqual => Some(InfixOp::Lte),
        SyntaxKind::GreaterThanDot => Some(InfixOp::GtFloat),
        SyntaxKind::LessThanDot => Some(InfixOp::LtFloat),
        SyntaxKind::GreaterThanOrEqualDot => Some(InfixOp::GteFloat),
        SyntaxKind::LessThanOrEqualDot => Some(InfixOp::LteFloat),
        SyntaxKind::AndKeyword => Some(InfixOp::And),
        SyntaxKind::OrKeyword => Some(InfixOp::Or),
        _ => None,
    }
}

/// Each infix operator token stands for the operator it spells: `+ - * / %`
/// for integer arithmetic, `+. -. *. /.` for float arithmetic, `== !=` for
/// equality, `> < >= <=` for integer and `>. <. >=. <=.` for float
/// comparison, and the keywords `and` and `or` for the logical operators.
pub proof fn law_infix_token_operators()
    ensures
        spec_infix_op(SyntaxKind::Plus) == Some(InfixOp::Add),
        spec_infix_op(SyntaxKind::Minus) == Some(InfixOp::Sub),
        spec_infix_op(SyntaxKind::Asterisk) == Some(InfixOp::Mul),
        spec_infix_op(SyntaxKind::Slash) == Some(InfixOp::Div),
        spec_infix_op(SyntaxKind::Percent) == Some(InfixOp::Mod),
        spec_infix_op(SyntaxKind::PlusDot) == Some(InfixOp::AddFloat),
        spec_infix_op(SyntaxKind::MinusDot) == Some(InfixOp::SubFloat),
        spec_infix_op(SyntaxKind::AsteriskDot) == Some(InfixOp::MulFloat),
        spec_infix_op(SyntaxKind::SlashDot) == Some(InfixOp::DivFloat),
        spec_infix_op(SyntaxKind::EqualsEquals) == Some(InfixOp::Eq),
        spec_infix_op(SyntaxKind::NotEquals) == Some(InfixOp::NotEq),
        spec_infix_op(SyntaxKind::GreaterThan) == Some(InfixOp::Gt),
        spec_infix_op(SyntaxKind::LessThan) == Some(InfixOp::Lt),
        spec_infix_op(SyntaxKind::GreaterThanOrEqual) == Some(InfixOp::Gte),
        spec_infix_op(SyntaxKind::LessThanOrEqual) == Some(InfixOp::Lte),
        spec_infix_op(SyntaxKind::GreaterThanDot) == Some(InfixOp::GtFloat),
        spec_infix_op(SyntaxKind::LessThanDot) == Some(InfixOp::LtFloat),
        spec_infix_op(SyntaxKind::GreaterThanOrEqualDot) == Some(InfixOp::GteFloat),
        spec_infix_op(SyntaxKind::LessThanOrEqualDot) == Some(InfixOp::LteFloat),
        spec_infix_op(SyntaxKind::AndKeyword) == Some(InfixOp::And),
        spec_infix_op(SyntaxKind::OrKeyword) == Some(InfixOp::Or),
{
}

/// Distinct tokens stand for distinct operators, and only the operator
/// tokens above stand for one.
pub proof fn law_infix_token_injective(a: SyntaxKind, b: SyntaxKind)
    requires
        spec_infix_op(a) is Some,
        spec_infix_op(a) == spec_infix_op(b),
    ensures
        a == b,
{
}

/// The operator of an infix operator token.
pub fn infix_op_of(k: SyntaxKind) -> (r: Option<InfixOp>)
    ensures
        r == spec_infix_op(k),
{
    match k {
        SyntaxKind::Plus => Some(InfixOp::Add),
        SyntaxKind::Minus => Some(InfixOp::Sub),
        SyntaxKind::Asterisk => Some(InfixOp::Mul),
        SyntaxKind::Slash => Some(InfixOp::Div),
        SyntaxKind::Percent => Some(InfixOp::Mod),
        SyntaxKind::PlusDot => Some(InfixOp::AddFloat),
        SyntaxKind::MinusDot => Some(InfixOp::SubFloat),
        SyntaxKind::AsteriskDot => Some(InfixOp::MulFloat),
        SyntaxKind::SlashDot => Some(InfixOp::DivFloat),
        SyntaxKind::EqualsEquals => Some(InfixOp::Eq),
        SyntaxKind::NotEquals => Some(InfixOp::NotEq),
        SyntaxKind::GreaterThan => Some(InfixOp::Gt),
        SyntaxKind::LessThan => Some(InfixOp::Lt),
        SyntaxKind::GreaterThanOrEqual => Some(InfixOp::Gte),
        SyntaxKind::LessThanOrEqual => Some(InfixOp::Lte),
        SyntaxKind::GreaterThanDot => Some(InfixOp::GtFloat),
        SyntaxKind::LessThanDot => Some(InfixOp::LtFloat),
        SyntaxKind::GreaterThanOrEqualDot => Some(InfixOp::GteFloat),
        SyntaxKind::LessThanOrEqualDot => Some(InfixOp::LteFloat),
        SyntaxKind::AndKeyword => Some(InfixOp::And),
        SyntaxKind::OrKeyword => Some(InfixOp::Or),
        _ => None,
    }
}

/// Whether a literal value is zero: the integer zero, or a float whose text
/// reads as an `f64` equal to zero (its value rounds to zero).
pub open spec fn zero_value(v: Option<LiteralView>) -> bool {
    match v {
        Some(LiteralView::Integer(n)) => n == 0,
        Some(LiteralView::Float(t)) => crate::float_zero::float_is_zero(t),
        _ => false,
    }
}

/// The value of literal node `id`, from its first literal token.
pub open spec fn literal_node_value(tree: SyntaxTree, id: usize) -> Option<LiteralView> {
    match first_of(tokens_where(tree.children_of(id), KindClass::LiteralToken)) {
        Some(t) => spec_literal_of(t),
        None => None,
    }
}

/// Whether node `id` is a literal whose value is zero.
pub open spec fn zero_literal_node(tree: SyntaxTree, id: usize) -> bool {
    tree.kind_of(id) == SyntaxKind::Literal && zero_value(literal_node_value(tree, id))
}

/// Whether an optional expression is a literal zero.
pub open spec fn spec_is_zero_literal(e: Option<ast::Expression>) -> bool {
    match e {
        Some(x) => zero_literal_node(x.tree(), x.id()),
        None => false,
    }
}

/// Whether an optional expression is a literal zero (a division by it is
/// reported).
pub fn is_zero_literal(e: &Option<ast::Expression>) -> (r: bool)
    ensures
        r == spec_is_zero_literal(*e),
{
    match e {
        Some(x) => {
            x.check_valid();
            match x {
                ast::Expression::Literal(l) => match l.value() {
                    Some(LiteralValue::Integer(n)) => n == 0,
                    Some(LiteralValue::Float(t)) => crate::float_zero::float_text_is_zero(
                        &chars_of(t.as_str()),
                    ),
                    _ => false,
                },
                _ => false,
            }
        },
        None => false,
    }
}

/// The literal of the IR for a literal value (a malformed literal becomes
/// the integer zero).
pub open spec fn spec_lower_literal(v: Option<LiteralView>) -> LiteralView {
    match v {
        Some(x) => x,
        None => LiteralView::Integer(0),
    }
}

/// The view of a literal of the IR.
pub open spec fn hir_literal_view(l: Literal) -> LiteralView {
    match l {
        Literal::Integer(n) => LiteralView::Integer(n),
        Literal::Float(s) => LiteralView::Float(s@),
        Literal::Boolean(b) => LiteralView::Boolean(b),
        Literal::String(s) => LiteralView::String(s@),
    }
}

/// Lowers a literal node.
pub fn lower_literal(l: &ast::Literal) -> (r: Literal)
    ensures
        hir_literal_view(r) == spec_lower_literal(literal_node_value(l.tree(), l.id())),
{
    match l.value() {
        Some(LiteralValue::Integer(n)) => Literal::Integer(n),
        Some(LiteralValue::Float(s)) => Literal::Float(s),
        Some(LiteralValue::Boolean(b)) => Literal::Boolean(b),
        Some(LiteralValue::String(s)) => Literal::String(s),
        None => Literal::Integer(0),
    }
}

/// Lowering state: the expression arena with the span of each expression,
/// the symbol events, the diagnostics, the interner, the labels of the
/// enclosing loops and the resolution data.
struct Ctx {
    expressions: Vec<Expression>,
    expr_spans: Vec<TextRange>,
    symbols: Vec<SymbolEvent>,
    diagnostics: Vec<HirError>,
    interner: Interner,
    loop_stack: Vec<Option<Ident>>,
    resolution: Option<ResolutionData>,
    tree: Ghost<SyntaxTree>,
    origins: Ghost<Seq<Option<usize>>>,
}

impl Ctx {
    spec fn inv(self) -> bool {
        &&& arena_wf(self.expressions@)
        &&& self.expr_spans@.len() == self.expressions@.len()
        &&& arena_made_from(
            self.tree@,
            self.origins@,
            self.interner@,
            self.resolution,
            self.expressions@,
            self.expr_spans@,
        )
        &&& all_warranted(self.tree@, self.diagnostics@)
        &&& scopes_nested(self.symbols@)
        &&& events_warranted(self.tree@, self.symbols@)
        &&& arena_recorded(self.tree@, self.origins@, self.symbols@)
        &&& arena_reported(self.tree@, self.origins@, self.diagnostics@)
        &&& forall|k: int|
            0 <= k < self.loop_stack@.len() ==> (#[trigger] self.loop_stack@[k] matches Some(l)
                ==> l.0 < self.interner@.len())
    }

    /// What every lowering step keeps: the invariant, the arena, interner and
    /// diagnostics only grow, the loop stack and the resolution data stay.
    spec fn step(self, next: Ctx) -> bool {
        &&& next.inv()
        &&& prefix_of(self.expressions@, next.expressions@)
        &&& prefix_of(self.interner@, next.interner@)
        &&& prefix_of(self.diagnostics@, next.diagnostics@)
        &&& next.loop_stack@ == self.loop_stack@
        &&& next.resolution == self.resolution
        &&& next.tree == self.tree
        &&& extends(self.origins@, next.origins@)
        &&& extends(self.interner@, next.interner@)
        &&& extends(self.diagnostics@, next.diagnostics@)
        &&& scope_depth(next.symbols@) == scope_depth(self.symbols@)
        &&& extends(self.symbols@, next.symbols@)
    }

    fn new(interner: Interner, resolution: Option<ResolutionData>, Ghost(tree): Ghost<SyntaxTree>) -> (r: Ctx)
        ensures
            r.inv(),
            r.tree@ == tree,
            r.expressions@.len() == 0,
            r.diagnostics@.len() == 0,
            r.loop_stack@.len() == 0,
            r.interner@ == interner@,
            r.resolution == resolution,
            r.symbols@.len() == 0,
    {
        Ctx {
            expressions: Vec::new(),
            expr_spans: Vec::new(),
            symbols: Vec::new(),
            diagnostics: Vec::new(),
            interner,
            loop_stack: Vec::new(),
            resolution,
            tree: Ghost(tree),
            origins: Ghost(Seq::empty()),
        }
    }

    fn alloc_expr(&mut self, e: Expression, span: TextRange, Ghost(n): Ghost<Option<usize>>) -> (r: ExprIdx)
        requires
            old(self).inv(),
            expr_below(e, old(self).expressions@.len()),
            expr_matches(old(self).tree@, old(self).origins@, old(self).interner@, old(self).resolution, n, e),
            span == node_span(old(self).tree@, n),
            reported(old(self).tree@, n, old(self).diagnostics@),
            recorded(old(self).tree@, n, old(self).symbols@),
        ensures
            old(self).step(*final(self)),
            final(self).expressions@ == old(self).expressions@.push(e),
            final(self).origins@ == old(self).origins@.push(n),
            final(self).interner@ == old(self).interner@,
            final(self).diagnostics@ == old(self).diagnostics@,
            r.0 == old(self).expressions@.len(),
    {
        let idx = self.expressions.len();
        proof {
            lemma_arena_push(
                self.tree@,
                self.origins@,
                self.interner@,
                self.resolution,
                self.expressions@,
                self.expr_spans@,
                n,
                e,
            );
        }
        self.expressions.push(e);
        self.expr_spans.push(span);
        self.origins = Ghost(self.origins@.push(n));
        proof {
            let a = self.expressions@;
            assert forall|p: int| 0 <= p < a.len() implies expr_below(#[trigger] a[p], p as nat) by {
                if p < idx {
                    assert(a[p] == old(self).expressions@[p]);
                }
            }
            assert(self.expressions@.subrange(0, idx as int) =~= old(self).expressions@);
            assert(self.interner@.subrange(0, self.interner@.len() as int) =~= self.interner@);
            assert(self.diagnostics@.subrange(0, self.diagnostics@.len() as int)
                =~= self.diagnostics@);
        }
        ExprIdx(idx)
    }

    fn intern(&mut self, s: &str) -> (r: Ident)
        requires
            old(self).inv(),
        ensures
            old(self).step(*final(self)),
            final(self).expressions@ == old(self).expressions@,
            final(self).origins == old(self).origins,
            final(self).tree == old(self).tree,
            final(self).diagnostics@ == old(self).diagnostics@,
            r.0 < final(self).interner@.len(),
            final(self).interner@[r.0 as int] == s@,
    {
        let r = self.interner.get_or_intern(s);
        proof {
            if !old(self).interner@.contains(s@) {
                assert(extends(old(self).interner@, self.interner@));
            }
            assert(extends(old(self).interner@, self.interner@));
            lemma_arena_names_mono(
                self.tree@,
                self.origins@,
                old(self).interner@,
                self.interner@,
                self.resolution,
                self.expressions@,
                self.expr_spans@,
            );
            assert(self.interner@.subrange(0, old(self).interner@.len() as int)
                =~= old(self).interner@);
            assert(self.expressions@.subrange(0, self.expressions@.len() as int)
                =~= self.expressions@);
            assert(self.diagnostics@.subrange(0, self.diagnostics@.len() as int)
                =~= self.diagnostics@);
            if !old(self).interner@.contains(s@) {
                assert(self.interner@[r.0 as int] == s@);
            }
        }
        r
    }

    fn define_symbol(&mut self, name: &str, def_span: TextRange, name_span: TextRange, doc_comment: Option<String>, Ghost(j): Ghost<usize>)
        requires
            old(self).inv(),
            j < old(self).tree@.nodes@.len(),
            old(self).tree@.kind_of(j) == SyntaxKind::FunctionDefinition || old(self).tree@.kind_of(j)
                == SyntaxKind::VariableDefinition,
            def_span == old(self).tree@.nodes@[j as int].range,
            name_token(old(self).tree@, j) matches Some(tok) && name@ == tok.text@ && name_span == tok.range,
            opt_text(doc_comment) == spec_doc_comment(old(self).tree@.children_of(j)),
        ensures
            old(self).step(*final(self)),
            has_definition(final(self).tree@, final(self).symbols@, j),
            final(self).expressions@ == old(self).expressions@,
            final(self).origins == old(self).origins,
            final(self).tree == old(self).tree,
            final(self).interner@ == old(self).interner@,
            final(self).diagnostics@ == old(self).diagnostics@,
    {
        let ev = SymbolEvent::Define { name: name.to_owned(), def_span, name_span, doc_comment };
        proof {
            lemma_scopes_push(self.symbols@, ev);
        }
        self.symbols.push(ev);
        proof {
            assert(event_warranted(self.tree@, ev));
            assert(self.symbols@[old(self).symbols@.len() as int] == ev);
            assert(extends(old(self).symbols@, self.symbols@));
            lemma_arena_recorded_extends(self.tree@, self.origins@, old(self).symbols@, self.symbols@);
            assert forall|k: int| 0 <= k < self.symbols@.len() implies event_warranted(self.tree@, #[trigger] self.symbols@[k]) by {
                if k < old(self).symbols@.len() {
                    assert(self.symbols@[k] == old(self).symbols@[k]);
                }
            }
            self.lemma_self_step();
            old(self).lemma_self_step();
        }
    }

    fn add_reference(&mut self, name: &str, span: TextRange, Ghost(j): Ghost<usize>)
        requires
            old(self).inv(),
            j < old(self).tree@.nodes@.len(),
            old(self).tree@.kind_of(j) == SyntaxKind::VariableReference || old(self).tree@.kind_of(j)
                == SyntaxKind::VariableAssignment,
            name_token(old(self).tree@, j) matches Some(tok) && name@ == tok.text@ && span == tok.range,
        ensures
            old(self).step(*final(self)),
            has_reference(final(self).symbols@, name@, span),
            final(self).expressions@ == old(self).expressions@,
            final(self).origins == old(self).origins,
            final(self).tree == old(self).tree,
            final(self).interner@ == old(self).interner@,
            final(self).diagnostics@ == old(self).diagnostics@,
    {
        let ev = SymbolEvent::Reference { name: name.to_owned(), span };
        proof {
            lemma_scopes_push(self.symbols@, ev);
        }
        self.symbols.push(ev);
        proof {
            assert(event_warranted(self.tree@, ev));
            assert(self.symbols@[old(self).symbols@.len() as int] == ev);
            assert(extends(old(self).symbols@, self.symbols@));
            lemma_arena_recorded_extends(self.tree@, self.origins@, old(self).symbols@, self.symbols@);
            assert forall|k: int| 0 <= k < self.symbols@.len() implies event_warranted(self.tree@, #[trigger] self.symbols@[k]) by {
                if k < old(self).symbols@.len() {
                    assert(self.symbols@[k] == old(self).symbols@[k]);
                }
            }
            self.lemma_self_step();
            old(self).lemma_self_step();
        }
    }

    fn push_diagnostic(&mut self, d: HirError)
        requires
            old(self).inv(),
            diag_warranted(old(self).tree@, d),
        ensures
            old(self).step(*final(self)),
            final(self).expressions@ == old(self).expressions@,
            final(self).origins == old(self).origins,
            final(self).tree == old(self).tree,
            final(self).interner@ == old(self).interner@,
            final(self).diagnostics@ == old(self).diagnostics@.push(d),
    {
        self.diagnostics.push(d);
        proof {
            assert(extends(old(self).diagnostics@, self.diagnostics@));
            lemma_arena_reported_extends(self.tree@, self.origins@, old(self).diagnostics@, self.diagnostics@);
            assert forall|k: int| 0 <= k < self.diagnostics@.len() implies diag_warranted(self.tree@, #[trigger] self.diagnostics@[k]) by {
                if k < old(self).diagnostics@.len() {
                    assert(self.diagnostics@[k] == old(self).diagnostics@[k]);
                }
            }
            assert(self.diagnostics@.subrange(0, old(self).diagnostics@.len() as int)
                =~= old(self).diagnostics@);
            assert(self.interner@.subrange(0, self.interner@.len() as int) =~= self.interner@);
            assert(self.expressions@.subrange(0, self.expressions@.len() as int)
                =~= self.expressions@);
        }
    }

    /// Every state is a step from itself.
    proof fn lemma_self_step(self)
        requires
            self.inv(),
        ensures
            self.step(self),
    {
        assert(self.interner@.subrange(0, self.interner@.len() as int) =~= self.interner@);
        assert(self.expressions@.subrange(0, self.expressions@.len() as int) =~= self.expressions@);
        assert(self.diagnostics@.subrange(0, self.diagnostics@.len() as int) =~= self.diagnostics@);
    }
}

/// Steps compose.
proof fn lemma_step_trans(a: Ctx, b: Ctx, c: Ctx)
    requires
        a.step(b),
        b.step(c),
    ensures
        a.step(c),
{
    assert(c.expressions@.subrange(0, a.expressions@.len() as int) =~= b.expressions@.subrange(
        0,
        a.expressions@.len() as int,
    ));
    assert(c.interner@.subrange(0, a.interner@.len() as int) =~= b.interner@.subrange(
        0,
        a.interner@.len() as int,
    ));
    assert(c.diagnostics@.subrange(0, a.diagnostics@.len() as int) =~= b.diagnostics@.subrange(
        0,
        a.diagnostics@.len() as int,
    ));
}


/// The source range of an optional expression (empty when absent).
fn span_of(e: &Option<ast::Expression>) -> (r: TextRange)
    ensures
        e matches Some(x) ==> r == x.tree().nodes@[x.id() as int].range,
        e is None ==> r.start == 0 && r.end == 0,
        r.start <= r.end,
{
    match e {
        Some(x) => {
            x.check_valid();
            proof {
                lemma_node_range(x.tree(), x.id());
            }
            x.text_range()
        },
        None => TextRange::empty(),
    }
}

/// The node of an optional expression.
spec fn node_of(e: Option<ast::Expression>) -> Option<usize> {
    match e {
        Some(x) => Some(x.id()),
        None => None,
    }
}

/// The node of an optional block.
spec fn block_node_of(b: Option<ast::BlockExpression>) -> Option<usize> {
    match b {
        Some(x) => Some(x.id()),
        None => None,
    }
}

/// What the lowering of a node with context `c` states of its result.
spec fn shaped(c: Ctx, n: usize, e: Expression) -> bool {
    expr_shape(c.tree@, c.origins@, c.interner@, c.resolution, n, e)
}

/// The measure of an optional expression for the recursion of lowering.
spec fn measure_opt(e: Option<ast::Expression>) -> int {
    match e {
        Some(x) => x.tree().nodes@.len() - x.id(),
        None => 0,
    }
}

/// Lowers an optional expression (absent: a missing expression).
fn lower_expression(ctx: &mut Ctx, ast: Option<ast::Expression>) -> (r: Expression)
    requires
        old(ctx).inv(),
        measure_opt(ast) >= 0,
        ast matches Some(x) ==> x.tree() == old(ctx).tree@,
    ensures
        reported(final(ctx).tree@, node_of(ast), final(ctx).diagnostics@),
        recorded(final(ctx).tree@, node_of(ast), final(ctx).symbols@),
        old(ctx).step(*final(ctx)),
        expr_below(r, final(ctx).expressions@.len()),
        ast is None ==> r == Expression::Missing,
        expr_matches(final(ctx).tree@, final(ctx).origins@, final(ctx).interner@, final(ctx).resolution, node_of(ast), r),
    decreases measure_opt(ast), 2int,
{
    let e = match ast {
        None => {
            proof {
                ctx.lemma_self_step();
            }
            return Expression::Missing;
        },
        Some(e) => e,
    };
    e.check_valid();
    match e {
        ast::Expression::Infix(x) => lower_infix(ctx, x),
        ast::Expression::Literal(x) => {
            proof {
                ctx.lemma_self_step();
            }
            Expression::Literal(lower_literal(&x))
        },
        ast::Expression::Parenthesis(x) => lower_expression(ctx, x.expression()),
        ast::Expression::Prefix(x) => lower_prefix(ctx, x),
        ast::Expression::VariableReference(x) => lower_var_ref(ctx, x),
        ast::Expression::Block(x) => lower_block(ctx, x),
        ast::Expression::If(x) => lower_if(ctx, x),
        ast::Expression::Loop(x) => lower_loop(ctx, x),
        ast::Expression::While(x) => lower_while(ctx, x),
        ast::Expression::For(x) => lower_for(ctx, x),
        ast::Expression::Range(x) => lower_range(ctx, x),
        ast::Expression::Function(x) => lower_function_expr(ctx, x),
        ast::Expression::Call(x) => lower_call(ctx, x),
        ast::Expression::List(x) => lower_list(ctx, x),
        ast::Expression::Index(x) => lower_index(ctx, x),
        ast::Expression::Slice(x) => lower_slice(ctx, x),
        ast::Expression::Tuple(x) => lower_tuple(ctx, x),
        ast::Expression::TupleAccess(x) => lower_tuple_access(ctx, x),
    }
}

/// Lowers an optional expression and stores it in the arena, with its
/// range (an absent expression is stored as missing, with an empty range).
fn lower_opt_child(ctx: &mut Ctx, ast: Option<ast::Expression>) -> (r: ExprIdx)
    requires
        old(ctx).inv(),
        measure_opt(ast) >= 0,
        ast matches Some(x) ==> x.tree() == old(ctx).tree@,
    ensures
        old(ctx).step(*final(ctx)),
        r.0 + 1 == final(ctx).expressions@.len(),
        made_from(final(ctx).origins@, r, node_of(ast)),
        ast is None ==> final(ctx).expressions@[r.0 as int] == Expression::Missing,
    decreases measure_opt(ast), 3int,
{
    let ghost g0 = *ctx;
    let span = span_of(&ast);
    let e = lower_expression(ctx, ast);
    let ghost g1 = *ctx;
    let r = ctx.alloc_expr(e, span, Ghost(node_of(ast)));
    proof {
        lemma_step_trans(g0, g1, *ctx);
    }
    r
}

/// Lowers a block if there is one (else a missing expression) and stores it
/// in the arena with its range.
fn lower_opt_block(ctx: &mut Ctx, ast: Option<ast::BlockExpression>) -> (r: ExprIdx)
    requires
        old(ctx).inv(),
        ast matches Some(b) ==> b.id() < b.tree().nodes@.len() && b.tree() == old(ctx).tree@,
    ensures
        old(ctx).step(*final(ctx)),
        r.0 + 1 == final(ctx).expressions@.len(),
        made_from(final(ctx).origins@, r, block_node_of(ast)),
        ast is None ==> final(ctx).expressions@[r.0 as int] == Expression::Missing,
        ast is Some ==> final(ctx).expressions@[r.0 as int] is Block,
    decreases (match ast {
        Some(b) => b.tree().nodes@.len() - b.id(),
        None => 0,
    }), 2int,
{
    let ghost g0 = *ctx;
    let (e, span) = match ast {
        Some(b) => (lower_block(ctx, b), b.text_range()),
        None => {
            proof {
                ctx.lemma_self_step();
            }
            (Expression::Missing, TextRange::empty())
        },
    };
    let ghost g1 = *ctx;
    let r = ctx.alloc_expr(e, span, Ghost(block_node_of(ast)));
    proof {
        lemma_step_trans(g0, g1, *ctx);
    }
    r
}

/// A division or remainder whose second operand is the literal zero.
pub open spec fn divides_by_zero_literal(ast: ast::InfixExpression) -> bool {
    match first_of(ast.tokens_in(KindClass::InfixOperator)) {
        Some(t) => (spec_infix_op(t.kind) == Some(InfixOp::Div) || spec_infix_op(t.kind) == Some(
            InfixOp::DivFloat,
        ) || spec_infix_op(t.kind) == Some(InfixOp::Mod)) && match nth_of(
            ast.nodes_in(KindClass::Expression),
            1,
        ) {
            Some(j) => zero_literal_node(ast.tree(), j),
            None => false,
        },
        None => false,
    }
}

/// Reports a division or remainder by the literal zero at its divisor.
fn report_division(ctx: &mut Ctx, ast: ast::InfixExpression, op: InfixOp, rhs_ast: &Option<ast::Expression>, rhs_span: TextRange)
    requires
        old(ctx).inv(),
        ast.tree() == old(ctx).tree@,
        ast.id() < ast.tree().nodes@.len(),
        ast.tree().kind_of(ast.id()) == SyntaxKind::InfixExpression,
        first_of(ast.tokens_in(KindClass::InfixOperator)) matches Some(t) && spec_infix_op(t.kind) == Some(op),
        rhs_ast matches Some(x) ==> x.tree() == ast.tree() && nth_of(ast.nodes_in(KindClass::Expression), 1) == Some(x.id()),
        rhs_ast is None <==> nth_of(ast.nodes_in(KindClass::Expression), 1) is None,
        rhs_span == node_span(ast.tree(), node_of(*rhs_ast)),
        rhs_span.start <= rhs_span.end,
    ensures
        old(ctx).step(*final(ctx)),
        final(ctx).expressions@ == old(ctx).expressions@,
        final(ctx).interner@ == old(ctx).interner@,
        final(ctx).origins == old(ctx).origins,
        divides_by_zero_literal(ast) ==> final(ctx).diagnostics@ == old(ctx).diagnostics@.push(
            HirError::DivisionByZero { span: spec_to_span(rhs_span) },
        ),
        !divides_by_zero_literal(ast) ==> final(ctx).diagnostics@ == old(ctx).diagnostics@,
{
    if (op == InfixOp::Div || op == InfixOp::DivFloat || op == InfixOp::Mod) && is_zero_literal(rhs_ast) {
        proof {
            let t = ast.tree();
            assert(divides_by_zero_node(t, ast.id()));
            assert(node_report(t, ast.id()) == Some(HirError::DivisionByZero { span: spec_to_span(rhs_span) }));
        }
        ctx.push_diagnostic(HirError::DivisionByZero { span: to_span(rhs_span) });
    } else {
        proof {
            ctx.lemma_self_step();
        }
    }
}

/// Lowers a binary expression: a missing expression when it has no
/// operator; a division or remainder by a literal zero is reported before
/// the operands are lowered.
#[verifier::rlimit(50)]
fn lower_infix(ctx: &mut Ctx, ast: ast::InfixExpression) -> (r: Expression)
    requires
        old(ctx).inv(),
        ast.tree() == old(ctx).tree@,
        ast.id() < ast.tree().nodes@.len(),
    ensures
        old(ctx).step(*final(ctx)),
        reported(final(ctx).tree@, Some(ast.id()), final(ctx).diagnostics@),
        shaped(*final(ctx), ast.id(), r),
        expr_below(r, final(ctx).expressions@.len()),
        first_of(ast.tokens_in(KindClass::InfixOperator)) is None ==> r == Expression::Missing,
        first_of(ast.tokens_in(KindClass::InfixOperator)) matches Some(t) ==> (match spec_infix_op(
            t.kind,
        ) {
            Some(o) => r matches Expression::Infix { op, .. } && op == o,
            None => r == Expression::Missing,
        }),
        divides_by_zero_literal(ast) ==> final(ctx).diagnostics@.len() > old(ctx).diagnostics@.len()
            && final(ctx).diagnostics@[old(ctx).diagnostics@.len() as int] == (HirError::DivisionByZero {
            span: spec_to_span(ast.tree().nodes@[nth_of(ast.nodes_in(KindClass::Expression), 1).unwrap() as int].range),
        }),
    decreases ast.tree().nodes@.len() - ast.id(), 1int,
{
    proof {
        use_type_invariant(&ast);
        ast.lemma_valid();
    }
    let t = match ast.operation() {
        None => {
            proof {
                ctx.lemma_self_step();
            }
            return Expression::Missing;
        },
        Some(t) => t,
    };
    let op = match infix_op_of(t.kind) {
        None => {
            proof {
                ctx.lemma_self_step();
            }
            return Expression::Missing;
        },
        Some(op) => op,
    };
    let ghost g0 = *ctx;
    let lhs_ast = ast.lhs();
    let rhs_ast = ast.rhs();
    let lhs_span = span_of(&lhs_ast);
    let rhs_span = span_of(&rhs_ast);
    report_division(ctx, ast, op, &rhs_ast, rhs_span);
    let ghost g1 = *ctx;
    let lhs = lower_expression(ctx, lhs_ast);
    let ghost g2 = *ctx;
    let rhs = lower_expression(ctx, rhs_ast);
    let ghost g3 = *ctx;
    proof {
        lemma_expr_below_mono(lhs, g2.expressions@.len(), g3.expressions@.len());
        lemma_expr_matches_mono(g2.tree@, g2.origins@, g3.origins@, g2.interner@, g3.interner@, g2.resolution, node_of(lhs_ast), lhs);
        lemma_reported_extends(g2.tree@, node_of(lhs_ast), g2.diagnostics@, g3.diagnostics@);
        lemma_recorded_extends(g2.tree@, node_of(lhs_ast), g2.symbols@, g3.symbols@);
    }
    let l = ctx.alloc_expr(lhs, lhs_span, Ghost(node_of(lhs_ast)));
    let ghost g4 = *ctx;
    proof {
        lemma_expr_below_mono(rhs, g3.expressions@.len(), g4.expressions@.len());
        lemma_expr_matches_mono(g3.tree@, g3.origins@, g4.origins@, g3.interner@, g4.interner@, g3.resolution, node_of(rhs_ast), rhs);
        lemma_reported_extends(g3.tree@, node_of(rhs_ast), g3.diagnostics@, g4.diagnostics@);
        lemma_recorded_extends(g3.tree@, node_of(rhs_ast), g3.symbols@, g4.symbols@);
    }
    let r = ctx.alloc_expr(rhs, rhs_span, Ghost(node_of(rhs_ast)));
    proof {
        lemma_step_trans(g1, g2, g3);
        lemma_step_trans(g1, g3, g4);
        lemma_step_trans(g1, g4, *ctx);
        lemma_step_trans(g0, g1, *ctx);
        let n = g0.diagnostics@.len() as int;
        if n < g1.diagnostics@.len() {
            assert(ctx.diagnostics@[n] == g1.diagnostics@[n]);
            assert(ctx.diagnostics@.contains(g1.diagnostics@[n]));
        }
    }
    Expression::Infix { op, lhs: l, rhs: r }
}


impl Ctx {
    fn push_loop(&mut self, label: Option<Ident>)
        requires
            old(self).inv(),
            label matches Some(l) ==> l.0 < old(self).interner@.len(),
        ensures
            final(self).inv(),
            final(self).loop_stack@ == old(self).loop_stack@.push(label),
            final(self).symbols@ == old(self).symbols@,
            final(self).expressions@ == old(self).expressions@,
            final(self).origins == old(self).origins,
            final(self).tree == old(self).tree,
            final(self).interner@ == old(self).interner@,
            final(self).diagnostics@ == old(self).diagnostics@,
            final(self).resolution == old(self).resolution,
    {
        self.loop_stack.push(label);
        proof {
            assert forall|k: int| 0 <= k < self.loop_stack@.len() implies (
            #[trigger] self.loop_stack@[k] matches Some(l) ==> l.0 < self.interner@.len()) by {
                if k < old(self).loop_stack@.len() {
                    assert(self.loop_stack@[k] == old(self).loop_stack@[k]);
                }
            }
        }
    }

    fn pop_loop(&mut self)
        requires
            old(self).inv(),
        ensures
            final(self).inv(),
            final(self).loop_stack@ == old(self).loop_stack@.drop_last() || (old(self).loop_stack@.len() == 0 && final(self).loop_stack@ == old(self).loop_stack@),
            final(self).symbols@ == old(self).symbols@,
            final(self).expressions@ == old(self).expressions@,
            final(self).origins == old(self).origins,
            final(self).tree == old(self).tree,
            final(self).interner@ == old(self).interner@,
            final(self).diagnostics@ == old(self).diagnostics@,
            final(self).resolution == old(self).resolution,
    {
        self.loop_stack.pop();
        proof {
            assert forall|k: int| 0 <= k < self.loop_stack@.len() implies (
            #[trigger] self.loop_stack@[k] matches Some(l) ==> l.0 < self.interner@.len()) by {
                assert(self.loop_stack@[k] == old(self).loop_stack@[k]);
            }
        }
    }

    fn in_loop(&self) -> (r: bool)
        ensures
            r == (self.loop_stack@.len() > 0),
    {
        self.loop_stack.len() > 0
    }

    fn has_loop_label(&self, target: Ident) -> (r: bool)
        ensures
            r == (exists|k: int|
                0 <= k < self.loop_stack@.len() && #[trigger] self.loop_stack@[k] == Some(target)),
    {
        let mut i: usize = 0;
        while i < self.loop_stack.len()
            invariant
                i <= self.loop_stack@.len(),
                forall|k: int| 0 <= k < i ==> #[trigger] self.loop_stack@[k] != Some(target),
            decreases self.loop_stack@.len() - i,
        {
            if self.loop_stack[i] == Some(target) {
                return true;
            }
            i = i + 1;
        }
        false
    }
}

/// A loop scope: pushing a label, stepping, and popping it again is a step.
proof fn lemma_loop_scope(a: Ctx, b: Ctx, c: Ctx, d: Ctx, label: Option<Ident>)
    requires
        a.inv(),
        b.expressions@ == a.expressions@,
        b.interner@ == a.interner@,
        b.diagnostics@ == a.diagnostics@,
        b.resolution == a.resolution,
        b.origins == a.origins,
        b.tree == a.tree,
        b.loop_stack@ == a.loop_stack@.push(label),
        b.symbols@ == a.symbols@,
        b.step(c),
        d.inv(),
        d.expressions@ == c.expressions@,
        d.interner@ == c.interner@,
        d.diagnostics@ == c.diagnostics@,
        d.resolution == c.resolution,
        d.origins == c.origins,
        d.tree == c.tree,
        d.loop_stack@ == c.loop_stack@.drop_last(),
        d.symbols@ == c.symbols@,
    ensures
        a.step(d),
{
    assert(d.loop_stack@ =~= a.loop_stack@);
}

/// The diagnostics that a `break` (or a `continue`) adds: outside any loop
/// it is misplaced; with a label that no enclosing loop has, the label is
/// unknown; otherwise nothing.
spec fn jump_ok(before: Seq<HirError>, after: Seq<HirError>, stack: Seq<Option<Ident>>, label: Option<Ident>, names: Seq<Seq<char>>, span: SourceSpan, is_break: bool) -> bool {
    if stack.len() == 0 {
        after == before.push(
            if is_break {
                HirError::BreakOutsideLoop { span }
            } else {
                HirError::ContinueOutsideLoop { span }
            },
        )
    } else if label matches Some(l) && !(exists|k: int| 0 <= k < stack.len() && #[trigger] stack[k] == Some(l)) {
        &&& after.len() == before.len() + 1
        &&& after.drop_last() == before
        &&& after.last() matches HirError::UnknownLoopLabel { label: text, span: sp } && sp == span
            && text@ == names[label.unwrap().0 as int]
    } else {
        after == before
    }
}

/// Reports a misplaced `break` or `continue`, or one with an unknown label.
fn check_jump(ctx: &mut Ctx, range: TextRange, label: Option<Ident>, is_break: bool, Ghost(j): Ghost<usize>)
    requires
        old(ctx).inv(),
        range.start <= range.end,
        label matches Some(l) ==> l.0 < old(ctx).interner@.len(),
        j < old(ctx).tree@.nodes@.len(),
        old(ctx).tree@.kind_of(j) == (if is_break { SyntaxKind::BreakStatement } else { SyntaxKind::ContinueStatement }),
        range == old(ctx).tree@.nodes@[j as int].range,
        names_token(old(ctx).interner@, label, name_token(old(ctx).tree@, j)),
    ensures
        old(ctx).step(*final(ctx)),
        final(ctx).expressions@ == old(ctx).expressions@,
        final(ctx).origins == old(ctx).origins,
        final(ctx).interner@ == old(ctx).interner@,
        jump_ok(old(ctx).diagnostics@, final(ctx).diagnostics@, old(ctx).loop_stack@, label, old(ctx).interner@, spec_to_span(range), is_break),
{
    let span = to_span(range);
    let ghost t = ctx.tree@;
    if !ctx.in_loop() {
        if is_break {
            ctx.push_diagnostic(HirError::BreakOutsideLoop { span });
        } else {
            ctx.push_diagnostic(HirError::ContinueOutsideLoop { span });
        }
    } else {
        match label {
            Some(l) => {
                if !ctx.has_loop_label(l) {
                    let text = ctx.interner.resolve(l).to_owned();
                    proof {
                        let d = HirError::UnknownLoopLabel { label: text, span };
                        assert(diag_warranted(t, d) && t.nodes@[j as int].range == range);
                    }
                    ctx.push_diagnostic(HirError::UnknownLoopLabel { label: text, span });
                    assert(ctx.diagnostics@.drop_last() =~= old(ctx).diagnostics@);
                } else {
                    proof {
                        ctx.lemma_self_step();
                    }
                }
            },
            None => {
                proof {
                    ctx.lemma_self_step();
                }
            },
        }
    }
}

/// Interns the text of an optional token.
fn intern_token(ctx: &mut Ctx, t: Option<Token>) -> (r: Option<Ident>)
    requires
        old(ctx).inv(),
    ensures
        old(ctx).step(*final(ctx)),
        final(ctx).expressions@ == old(ctx).expressions@,
        final(ctx).origins == old(ctx).origins,
        final(ctx).diagnostics@ == old(ctx).diagnostics@,
        t is None ==> r is None && final(ctx).interner@ == old(ctx).interner@,
        t matches Some(tok) ==> (r matches Some(id) && id.0 < final(ctx).interner@.len() && final(ctx).interner@[id.0 as int] == tok.text@),
{
    match t {
        Some(tok) => Some(ctx.intern(tok.text.as_str())),
        None => {
            proof {
                ctx.lemma_self_step();
            }
            None
        },
    }
}

/// Lowers a unary expression: a missing expression when it has no operator.
fn lower_prefix(ctx: &mut Ctx, ast: ast::PrefixExpression) -> (r: Expression)
    requires
        old(ctx).inv(),
        ast.tree() == old(ctx).tree@,
        ast.id() < ast.tree().nodes@.len(),
    ensures
        old(ctx).step(*final(ctx)),
        shaped(*final(ctx), ast.id(), r),
        expr_below(r, final(ctx).expressions@.len()),
        first_of(ast.tokens_in(KindClass::PrefixOperator)) is None ==> r == Expression::Missing,
        first_of(ast.tokens_in(KindClass::PrefixOperator)) matches Some(t) ==> (r matches Expression::Prefix {
            op,
            ..
        } && (op == PrefixOp::Neg <==> t.kind == SyntaxKind::Minus)),
    decreases ast.tree().nodes@.len() - ast.id(), 1int,
{
    proof {
        use_type_invariant(&ast);
        ast.lemma_valid();
    }
    let t = match ast.operation() {
        None => {
            proof {
                ctx.lemma_self_step();
            }
            return Expression::Missing;
        },
        Some(t) => t,
    };
    let op = if t.kind == SyntaxKind::Minus {
        PrefixOp::Neg
    } else {
        PrefixOp::Not
    };
    let e = lower_opt_child(ctx, ast.expression());
    Expression::Prefix { op, expr: e }
}

/// Lowers a variable reference: reports the reference, interns the name and
/// resolves it against the resolution data; missing without a name.
fn lower_var_ref(ctx: &mut Ctx, ast: ast::VariableReference) -> (r: Expression)
    requires
        old(ctx).inv(),
        ast.tree() == old(ctx).tree@,
    ensures
        old(ctx).step(*final(ctx)),
        recorded(final(ctx).tree@, Some(ast.id()), final(ctx).symbols@),
        shaped(*final(ctx), ast.id(), r),
        expr_below(r, final(ctx).expressions@.len()),
        first_of(ast.tokens_in(KindClass::Exactly(SyntaxKind::Identifier))) is None ==> r
            == Expression::Missing,
        first_of(ast.tokens_in(KindClass::Exactly(SyntaxKind::Identifier))) matches Some(t) ==> (
        r matches Expression::VariableRef { name } && (match name {
            ResolvedIdent::Local(id) => spec_resolve(old(ctx).resolution, t.text@) is None
                && final(ctx).interner@[id.0 as int] == t.text@,
            ResolvedIdent::External { module_id, name: id } => spec_resolve(
                old(ctx).resolution,
                t.text@,
            ) == Some(module_id) && final(ctx).interner@[id.0 as int] == t.text@,
        })),
{
    proof {
        use_type_invariant(&ast);
        ast.lemma_valid();
    }
    let t = match ast.name() {
        None => {
            proof {
                ctx.lemma_self_step();
            }
            return Expression::Missing;
        },
        Some(t) => t,
    };
    let ghost g0 = *ctx;
    ctx.add_reference(t.text.as_str(), t.range, Ghost(ast.id()));
    let ghost g1 = *ctx;
    let name = ctx.intern(t.text.as_str());
    proof {
        lemma_step_trans(g0, g1, *ctx);
        lemma_has_reference_extends(g1.symbols@, ctx.symbols@, t.text@, t.range);
    }
    let resolved = match resolve_reexport(&ctx.resolution, t.text.as_str()) {
        Some(m) => ResolvedIdent::External { module_id: m, name },
        None => ResolvedIdent::Local(name),
    };
    Expression::VariableRef { name: resolved }
}


/// A node's range starts before it ends.
proof fn lemma_node_range(tree: SyntaxTree, id: usize)
    requires
        tree.wf(),
        id < tree.nodes@.len(),
    ensures
        tree.nodes@[id as int].range.start <= tree.nodes@[id as int].range.end,
{
    assert(tree.nodes@[id as int].parent == tree.nodes@[id as int].parent);
}


impl Ctx {
    /// Everything but the symbol events stays.
    spec fn same_but_symbols(self, next: Ctx) -> bool {
        &&& next.expressions@ == self.expressions@
        &&& next.expr_spans@ == self.expr_spans@
        &&& next.origins == self.origins
        &&& next.tree == self.tree
        &&& next.interner@ == self.interner@
        &&& next.diagnostics@ == self.diagnostics@
        &&& next.loop_stack@ == self.loop_stack@
        &&& next.resolution == self.resolution
    }

    fn push_scope(&mut self)
        requires
            old(self).inv(),
        ensures
            final(self).inv(),
            old(self).same_but_symbols(*final(self)),
            final(self).symbols@ == old(self).symbols@.push(SymbolEvent::PushScope),
            scope_depth(final(self).symbols@) == scope_depth(old(self).symbols@) + 1,
    {
        proof {
            lemma_scopes_push(self.symbols@, SymbolEvent::PushScope);
        }
        self.symbols.push(SymbolEvent::PushScope);
        proof {
            assert(extends(old(self).symbols@, self.symbols@));
            lemma_arena_recorded_extends(self.tree@, self.origins@, old(self).symbols@, self.symbols@);
            assert forall|k: int| 0 <= k < self.symbols@.len() implies event_warranted(self.tree@, #[trigger] self.symbols@[k]) by {
                if k < old(self).symbols@.len() {
                    assert(self.symbols@[k] == old(self).symbols@[k]);
                }
            }
        }
    }

    fn pop_scope(&mut self)
        requires
            old(self).inv(),
            scope_depth(old(self).symbols@) >= 1,
        ensures
            final(self).inv(),
            old(self).same_but_symbols(*final(self)),
            final(self).symbols@ == old(self).symbols@.push(SymbolEvent::PopScope),
            scope_depth(final(self).symbols@) == scope_depth(old(self).symbols@) - 1,
    {
        proof {
            lemma_scopes_push(self.symbols@, SymbolEvent::PopScope);
        }
        self.symbols.push(SymbolEvent::PopScope);
        proof {
            assert(extends(old(self).symbols@, self.symbols@));
            lemma_arena_recorded_extends(self.tree@, self.origins@, old(self).symbols@, self.symbols@);
            assert forall|k: int| 0 <= k < self.symbols@.len() implies event_warranted(self.tree@, #[trigger] self.symbols@[k]) by {
                if k < old(self).symbols@.len() {
                    assert(self.symbols@[k] == old(self).symbols@[k]);
                }
            }
        }
    }
}

/// A scope: pushing it, stepping, and popping it again is a step.
proof fn lemma_scope_bracket(a: Ctx, b: Ctx, c: Ctx, d: Ctx)
    requires
        a.inv(),
        a.same_but_symbols(b),
        scope_depth(b.symbols@) == scope_depth(a.symbols@) + 1,
        b.symbols@ == a.symbols@.push(SymbolEvent::PushScope),
        d.symbols@ == c.symbols@.push(SymbolEvent::PopScope),
        b.step(c),
        c.same_but_symbols(d),
        scope_depth(d.symbols@) == scope_depth(c.symbols@) - 1,
        d.inv(),
    ensures
        a.step(d),
{
    a.lemma_self_step();
    lemma_step_trans(a, a, a);
    assert(extends(a.symbols@, d.symbols@)) by {
        assert forall|i: int| 0 <= i < a.symbols@.len() implies #[trigger] d.symbols@[i] == a.symbols@[i] by {
            assert(b.symbols@[i] == a.symbols@[i]);
            assert(c.symbols@[i] == b.symbols@[i]);
            assert(d.symbols@[i] == c.symbols@[i]);
        }
    }
    assert(d.expressions@.subrange(0, a.expressions@.len() as int) =~= c.expressions@.subrange(0, a.expressions@.len() as int));
    assert(d.interner@.subrange(0, a.interner@.len() as int) =~= c.interner@.subrange(0, a.interner@.len() as int));
    assert(d.diagnostics@.subrange(0, a.diagnostics@.len() as int) =~= c.diagnostics@.subrange(0, a.diagnostics@.len() as int));
}

/// Lowers each expression of a list and stores it in the arena, in order.
fn lower_each(ctx: &mut Ctx, es: &Vec<ast::Expression>, Ghost(n): Ghost<int>) -> (r: Vec<ExprIdx>)
    requires
        old(ctx).inv(),
        forall|k: int| 0 <= k < es@.len() ==> 0 <= #[trigger] measure_opt(Some(es@[k])) < n,
        forall|k: int| 0 <= k < es@.len() ==> (#[trigger] es@[k]).tree() == old(ctx).tree@,
    ensures
        old(ctx).step(*final(ctx)),
        r@.len() == es@.len(),
        all_below(r@, final(ctx).expressions@.len()),
        forall|k: int| 0 <= k < r@.len() ==> made_from(final(ctx).origins@, #[trigger] r@[k], Some(es@[k].id())),
    decreases n, 0int,
{
    let ghost g0 = *ctx;
    let mut out: Vec<ExprIdx> = Vec::new();
    let mut i: usize = 0;
    proof {
        ctx.lemma_self_step();
    }
    while i < es.len()
        invariant
            g0.inv(),
            g0.step(*ctx),
            i <= es@.len(),
            out@.len() == i,
            all_below(out@, ctx.expressions@.len()),
            forall|k: int| 0 <= k < es@.len() ==> 0 <= #[trigger] measure_opt(Some(es@[k])) < n,
            forall|k: int| 0 <= k < es@.len() ==> (#[trigger] es@[k]).tree() == g0.tree@,
            forall|k: int| 0 <= k < out@.len() ==> made_from(ctx.origins@, #[trigger] out@[k], Some(es@[k].id())),
        decreases es@.len() - i,
    {
        let ghost g1 = *ctx;
        let e = es[i];
        assert(0 <= measure_opt(Some(es@[i as int])) < n);
        let x = lower_opt_child(ctx, Some(e));
        proof {
            lemma_step_trans(g0, g1, *ctx);
        }
        let ghost before = out@;
        out.push(x);
        proof {
            assert forall|k: int| 0 <= k < out@.len() implies made_from(ctx.origins@, #[trigger] out@[k], Some(es@[k].id())) by {
                if k < before.len() {
                    assert(out@[k] == before[k]);
                    assert(made_from(g1.origins@, before[k], Some(es@[k].id())));
                }
            }
        }
        i = i + 1;
    }
    out
}

/// The node of an optional parameter list.
spec fn list_node_of(l: Option<ast::ParameterList>) -> Option<usize> {
    match l {
        Some(x) => Some(x.id()),
        None => None,
    }
}

/// Lowers the parameters of a parameter list: each one with a name, with
/// its optional type name and default value.
fn lower_params(ctx: &mut Ctx, params: Option<ast::ParameterList>) -> (r: Vec<FunctionParam>)
    requires
        old(ctx).inv(),
        params matches Some(p) ==> p.id() < p.tree().nodes@.len() && p.tree() == old(ctx).tree@,
    ensures
        old(ctx).step(*final(ctx)),
        params_below(r@, final(ctx).expressions@.len()),
        params is None ==> r@.len() == 0,
        params matches Some(p) ==> r@.len() <= p.nodes_in(KindClass::Exactly(SyntaxKind::Parameter)).len(),
        params_shape(final(ctx).tree@, final(ctx).origins@, final(ctx).interner@, list_node_of(params), r@),
    decreases (match params {
        Some(p) => p.tree().nodes@.len() - p.id(),
        None => 0,
    }), 0int,
{
    let ghost g0 = *ctx;
    let mut out: Vec<FunctionParam> = Vec::new();
    let list = match params {
        None => {
            proof {
                ctx.lemma_self_step();
            }
            return out;
        },
        Some(p) => p,
    };
    let ps = list.params();
    let ghost m = list.tree().nodes@.len() - list.id();
    let ghost t = list.tree();
    let ghost ids = list.nodes_in(KindClass::Exactly(SyntaxKind::Parameter));
    let mut i: usize = 0;
    proof {
        ctx.lemma_self_step();
        assert(ids.take(0) =~= Seq::<usize>::empty());
    }
    while i < ps.len()
        invariant
            g0.inv(),
            g0.step(*ctx),
            i <= ps@.len(),
            out@.len() <= i,
            ps@.len() == list.nodes_in(KindClass::Exactly(SyntaxKind::Parameter)).len(),
            m == list.tree().nodes@.len() - list.id(),
            params == Some(list),
            t == list.tree(),
            t == g0.tree@,
            ids == list.nodes_in(KindClass::Exactly(SyntaxKind::Parameter)),
            forall|k: int| #![trigger ps@[k]] 0 <= k < ps@.len() ==> (ps@[k].tree() == list.tree()
                && list.id() < ps@[k].id() && ps@[k].id() < list.tree().nodes@.len() && ps@[k].id() == ids[k]),
            params_below(out@, ctx.expressions@.len()),
            out@.len() == named_params(t, ids.take(i as int)).len(),
            forall|k: int| 0 <= k < out@.len() ==> param_shape(t, ctx.origins@, ctx.interner@, named_params(t, ids.take(i as int))[k], #[trigger] out@[k]),
        decreases ps@.len() - i,
    {
        let p = ps[i];
        assert(list.id() < ps@[i as int].id());
        let ghost g1 = *ctx;
        let ghost before = out@;
        proof {
            assert(ids.take(i + 1).drop_last() =~= ids.take(i as int));
            assert(ids.take(i + 1).last() == ids[i as int]);
        }
        match p.name() {
            None => {
                proof {
                    ctx.lemma_self_step();
                    assert(named_params(t, ids.take(i + 1)) =~= named_params(t, ids.take(i as int)));
                }
            },
            Some(tok) => {
                let name = ctx.intern(tok.text.as_str());
                let ghost g2 = *ctx;
                let ty = match p.type_annotation() {
                    Some(a) => intern_token(ctx, a.type_token()),
                    None => {
                        proof {
                            ctx.lemma_self_step();
                        }
                        None
                    },
                };
                let ghost g3 = *ctx;
                let default = match p.default_value() {
                    Some(e) => Some(lower_opt_child(ctx, Some(e))),
                    None => {
                        proof {
                            ctx.lemma_self_step();
                        }
                        None
                    },
                };
                proof {
                    lemma_step_trans(g1, g2, g3);
                    lemma_step_trans(g1, g3, *ctx);
                    lemma_params_below_mono(out@, g1.expressions@.len(), ctx.expressions@.len());
                }
                let fp = FunctionParam { name, ty, default };
                out.push(fp);
                proof {
                    assert forall|k: int| 0 <= k < out@.len() implies opt_below(
                        (#[trigger] out@[k]).default,
                        ctx.expressions@.len(),
                    ) by {
                        if k + 1 < out@.len() {
                            assert(out@[k] == out@.drop_last()[k]);
                        }
                    }
                    assert(named_params(t, ids.take(i + 1)) =~= named_params(t, ids.take(i as int)).push(ids[i as int]));
                    assert(param_shape(t, ctx.origins@, ctx.interner@, ids[i as int], fp));
                    assert forall|k: int| 0 <= k < out@.len() implies param_shape(t, ctx.origins@, ctx.interner@, named_params(t, ids.take(i + 1))[k], #[trigger] out@[k]) by {
                        if k < before.len() {
                            assert(out@[k] == before[k]);
                            lemma_param_shape_mono(t, g1.origins@, ctx.origins@, g1.interner@, ctx.interner@, named_params(t, ids.take(i as int))[k], before[k]);
                        }
                    }
                }
            },
        }
        proof {
            lemma_step_trans(g0, g1, *ctx);
            if out@.len() == before.len() {
                assert forall|k: int| 0 <= k < out@.len() implies param_shape(t, ctx.origins@, ctx.interner@, named_params(t, ids.take(i + 1))[k], #[trigger] out@[k]) by {
                    lemma_param_shape_mono(t, g1.origins@, ctx.origins@, g1.interner@, ctx.interner@, named_params(t, ids.take(i as int))[k], before[k]);
                }
            }
        }
        i = i + 1;
    }
    proof {
        assert(ids.take(ps@.len() as int) =~= ids);
    }
    out
}

/// Lowers a block: the items in order inside a scope; a last item that is
/// an expression becomes the tail; a block with neither items nor tail is
/// reported.
fn lower_block(ctx: &mut Ctx, ast: ast::BlockExpression) -> (r: Expression)
    requires
        old(ctx).inv(),
        ast.tree() == old(ctx).tree@,
        ast.id() < ast.tree().nodes@.len(),
    ensures
        old(ctx).step(*final(ctx)),
        reported(final(ctx).tree@, Some(ast.id()), final(ctx).diagnostics@),
        recorded(final(ctx).tree@, Some(ast.id()), final(ctx).symbols@),
        shaped(*final(ctx), ast.id(), r),
        expr_below(r, final(ctx).expressions@.len()),
        r is Block,
        (r matches Expression::Block { items, tail } && items@.len() == 0 && tail is None) ==> (
        final(ctx).diagnostics@.len() > 0 && final(ctx).diagnostics@.last()
            == (HirError::EmptyBlock { span: spec_to_span(ast.tree().nodes@[ast.id() as int].range) })),
        final(ctx).symbols@.len() > 0 && final(ctx).symbols@.last() == SymbolEvent::PopScope,
    decreases ast.tree().nodes@.len() - ast.id(), 1int,
{
    proof {
        use_type_invariant(&ast);
        ast.lemma_valid();
    }
    let ghost g0 = *ctx;
    ctx.push_scope();
    let ghost gp = *ctx;
    proof {
        ctx.lemma_self_step();
    }
    let asts = ast.items();
    let ghost t = ast.tree();
    let ghost ids = ast.nodes_in(KindClass::Item);
    let mut items: Vec<BlockItem> = Vec::new();
    let mut i: usize = 0;
    proof {
        assert(ids.take(0) =~= Seq::<usize>::empty());
    }
    while i < asts.len()
        invariant
            gp.inv(),
            gp.step(*ctx),
            i <= asts@.len(),
            t == ast.tree(),
            t == gp.tree@,
            ids == ast.nodes_in(KindClass::Item),
            asts@.len() == ids.len(),
            forall|k: int| #![trigger asts@[k]] 0 <= k < asts@.len() ==> (asts@[k].tree()
                == ast.tree() && ast.id() < asts@[k].id() && asts@[k].id() < ast.tree().nodes@.len()
                && asts@[k].id() == ids[k]),
            forall|k: int|
                0 <= k < items@.len() ==> block_item_below(
                    #[trigger] items@[k],
                    ctx.expressions@.len(),
                ),
            block_items_shape(t, ctx.origins@, ctx.interner@, block_lowering(t, ids.take(i as int)), items@),
            forall|k: int| 0 <= k < items@.len() ==> ((#[trigger] items@[k]) is Expression
                <==> is_expression_kind(t.kind_of(block_lowering(t, ids.take(i as int))[k]))),
            forall|q: int| 0 <= q < block_lowering(t, ids.take(i as int)).len() ==> item_events_recorded(
                t,
                #[trigger] block_lowering(t, ids.take(i as int))[q],
                ctx.symbols@,
            ),
        decreases asts@.len() - i,
    {
        let it = asts[i];
        assert(ast.id() < asts@[i as int].id());
        let ghost g1 = *ctx;
        let ghost old_items = items@;
        let ghost lo = block_lowering(t, ids.take(i as int));
        proof {
            assert(ids.take(i + 1).drop_last() =~= ids.take(i as int));
            assert(ids.take(i + 1).last() == ids[i as int]);
        }
        let lowered = lower_block_item(ctx, it);
        proof {
            lemma_block_items_mono(t, g1.origins@, ctx.origins@, g1.interner@, ctx.interner@, lo, old_items);
            assert forall|q: int| 0 <= q < lo.len() implies item_events_recorded(t, #[trigger] lo[q], ctx.symbols@) by {
                lemma_item_events_extends(t, lo[q], g1.symbols@, ctx.symbols@);
            }
        }
        match lowered {
            Some(bi) => {
                items.push(bi);
                proof {
                    let ln = block_lowering(t, ids.take(i + 1));
                    assert(ln =~= lo.push(ids[i as int]));
                    assert forall|k: int| 0 <= k < items@.len() implies block_item_shape(t, ctx.origins@, ctx.interner@, ln[k], #[trigger] items@[k]) by {
                        if k < old_items.len() {
                            assert(items@[k] == old_items[k]);
                            assert(block_item_shape(t, ctx.origins@, ctx.interner@, lo[k], old_items[k]));
                        }
                    }
                    assert forall|k: int| 0 <= k < items@.len() implies ((#[trigger] items@[k]) is Expression
                        <==> is_expression_kind(t.kind_of(ln[k]))) by {
                        if k < old_items.len() {
                            assert(items@[k] == old_items[k]);
                        }
                    }
                    assert forall|q: int| 0 <= q < ln.len() implies item_events_recorded(t, #[trigger] ln[q], ctx.symbols@) by {
                        if q < lo.len() {
                            assert(ln[q] == lo[q]);
                        }
                    }
                }
            },
            None => {
                proof {
                    assert(block_lowering(t, ids.take(i + 1)) =~= lo);
                }
            },
        }
        proof {
            lemma_step_trans(gp, g1, *ctx);
            assert forall|k: int| 0 <= k < items@.len() implies block_item_below(
                #[trigger] items@[k],
                ctx.expressions@.len(),
            ) by {
                if k < old_items.len() {
                    assert(items@[k] == old_items[k]);
                    assert(block_item_below(old_items[k], g1.expressions@.len()));
                }
            }
        }
        i = i + 1;
    }
    let ghost lo = block_lowering(t, ids);
    proof {
        assert(ids.take(asts@.len() as int) =~= ids);
    }
    let n = items.len();
    let tail = if n > 0 {
        match &items[n - 1] {
            BlockItem::Expression(idx) => Some(*idx),
            _ => None,
        }
    } else {
        None
    };
    if tail.is_some() {
        let ghost before = items@;
        items.pop();
        proof {
            assert(block_item_below(before[n - 1], ctx.expressions@.len()));
            assert forall|k: int| 0 <= k < items@.len() implies block_item_below(
                #[trigger] items@[k],
                ctx.expressions@.len(),
            ) by {
                assert(items@[k] == before[k]);
            }
            assert(block_item_shape(t, ctx.origins@, ctx.interner@, lo[n - 1], before[n - 1]));
            assert forall|k: int| 0 <= k < items@.len() implies block_item_shape(t, ctx.origins@, ctx.interner@, lo.drop_last()[k], #[trigger] items@[k]) by {
                assert(items@[k] == before[k]);
                assert(block_item_shape(t, ctx.origins@, ctx.interner@, lo[k], before[k]));
            }
        }
    } else {
        proof {
            if n > 0 {
                assert(!(items@[n - 1] is Expression));
            }
        }
    }
    let ghost g2 = *ctx;
    if items.len() == 0 && tail.is_none() {
        let range = ast.text_range();
        proof {
            use_type_invariant(&ast);
            ast.lemma_valid();
            lemma_node_range(ast.tree(), ast.id());
        }
        ctx.push_diagnostic(HirError::EmptyBlock { span: to_span(range) });
        proof {
            assert(ctx.diagnostics@[ctx.diagnostics@.len() - 1] == HirError::EmptyBlock { span: spec_to_span(range) });
        }
    } else {
        proof {
            ctx.lemma_self_step();
        }
    }
    let ghost g3 = *ctx;
    ctx.pop_scope();
    proof {
        lemma_step_trans(gp, g2, g3);
        lemma_scope_bracket(g0, gp, g3, *ctx);
        assert(extends(g2.symbols@, ctx.symbols@));
        assert forall|q: int| 0 <= q < lo.len() implies item_events_recorded(t, #[trigger] lo[q], ctx.symbols@) by {
            lemma_item_events_extends(t, lo[q], g2.symbols@, ctx.symbols@);
        }
        if lo.len() == 0 {
            assert(ctx.diagnostics@.contains(HirError::EmptyBlock { span: spec_to_span(t.nodes@[ast.id() as int].range) }));
        }
    }
    Expression::Block { items, tail }
}

/// Lowers a conditional: the condition, the then block and the else branch
/// (a block or another conditional), each stored in the arena.
fn lower_if(ctx: &mut Ctx, ast: ast::IfExpression) -> (r: Expression)
    requires
        old(ctx).inv(),
        ast.tree() == old(ctx).tree@,
        ast.id() < ast.tree().nodes@.len(),
    ensures
        old(ctx).step(*final(ctx)),
        shaped(*final(ctx), ast.id(), r),
        expr_below(r, final(ctx).expressions@.len()),
        r matches Expression::If { else_branch, .. } && (else_branch is Some <==> else_branch_node(
            ast.tree(),
            ast.nodes_in(KindClass::Any),
        ) is Some),
    decreases ast.tree().nodes@.len() - ast.id(), 1int,
{
    proof {
        use_type_invariant(&ast);
        ast.lemma_valid();
    }
    let ghost g0 = *ctx;
    let condition = lower_opt_child(ctx, ast.condition());
    let ghost g1 = *ctx;
    let then_branch = lower_opt_block(ctx, ast.then_branch());
    let ghost g2 = *ctx;
    let else_branch = match ast.else_branch() {
        Some(eb) => {
            let span = eb.text_range();
            let e = match eb {
                ast::ElseBranch::Block(b) => lower_block(ctx, b),
                ast::ElseBranch::ElseIf(x) => lower_if(ctx, x),
            };
            let ghost g3 = *ctx;
            let x = ctx.alloc_expr(e, span, Ghost(Some(eb.id())));
            proof {
                lemma_step_trans(g2, g3, *ctx);
            }
            Some(x)
        },
        None => {
            proof {
                ctx.lemma_self_step();
            }
            None
        },
    };
    proof {
        lemma_step_trans(g0, g1, g2);
        lemma_step_trans(g0, g2, *ctx);
    }
    Expression::If { condition, then_branch, else_branch }
}

/// Lowers the body of a loop with `label` pushed on the loop stack.
fn lower_loop_body(ctx: &mut Ctx, label: Option<Ident>, body: Option<ast::BlockExpression>) -> (r: ExprIdx)
    requires
        old(ctx).inv(),
        label matches Some(l) ==> l.0 < old(ctx).interner@.len(),
        body matches Some(b) ==> b.id() < b.tree().nodes@.len() && b.tree() == old(ctx).tree@,
    ensures
        old(ctx).step(*final(ctx)),
        r.0 + 1 == final(ctx).expressions@.len(),
        made_from(final(ctx).origins@, r, block_node_of(body)),
    decreases (match body {
        Some(b) => b.tree().nodes@.len() - b.id(),
        None => 0,
    }), 3int,
{
    let ghost g0 = *ctx;
    ctx.push_loop(label);
    let ghost g1 = *ctx;
    let r = lower_opt_block(ctx, body);
    let ghost g2 = *ctx;
    ctx.pop_loop();
    proof {
        lemma_loop_scope(g0, g1, g2, *ctx, label);
    }
    r
}

/// Lowers `loop`: its label is interned, its body lowered inside it.
fn lower_loop(ctx: &mut Ctx, ast: ast::LoopExpression) -> (r: Expression)
    requires
        old(ctx).inv(),
        ast.tree() == old(ctx).tree@,
        ast.id() < ast.tree().nodes@.len(),
    ensures
        old(ctx).step(*final(ctx)),
        shaped(*final(ctx), ast.id(), r),
        expr_below(r, final(ctx).expressions@.len()),
        r matches Expression::Loop { label, .. } && (match first_of(
            ast.tokens_in(KindClass::Exactly(SyntaxKind::Identifier)),
        ) {
            Some(t) => label matches Some(l) && final(ctx).interner@[l.0 as int] == t.text@,
            None => label is None,
        }),
    decreases ast.tree().nodes@.len() - ast.id(), 1int,
{
    proof {
        use_type_invariant(&ast);
        ast.lemma_valid();
    }
    let ghost g0 = *ctx;
    let label = intern_token(ctx, ast.label());
    let ghost g1 = *ctx;
    let body = lower_loop_body(ctx, label, ast.body());
    proof {
        lemma_step_trans(g0, g1, *ctx);
    }
    Expression::Loop { label, body }
}

/// Lowers `while`: the condition, then the label, then the body inside the
/// loop.
fn lower_while(ctx: &mut Ctx, ast: ast::WhileExpression) -> (r: Expression)
    requires
        old(ctx).inv(),
        ast.tree() == old(ctx).tree@,
        ast.id() < ast.tree().nodes@.len(),
    ensures
        old(ctx).step(*final(ctx)),
        shaped(*final(ctx), ast.id(), r),
        expr_below(r, final(ctx).expressions@.len()),
        r matches Expression::While { label, .. } && (label is Some <==> first_of(
            ast.tokens_in(KindClass::Exactly(SyntaxKind::Identifier)),
        ) is Some),
    decreases ast.tree().nodes@.len() - ast.id(), 1int,
{
    proof {
        use_type_invariant(&ast);
        ast.lemma_valid();
    }
    let ghost g0 = *ctx;
    let condition = lower_opt_child(ctx, ast.condition());
    let ghost g1 = *ctx;
    let label = intern_token(ctx, ast.label());
    let ghost g2 = *ctx;
    let body = lower_loop_body(ctx, label, ast.body());
    proof {
        lemma_step_trans(g0, g1, g2);
        lemma_step_trans(g0, g2, *ctx);
    }
    Expression::While { condition, label, body }
}

/// Lowers `for`: the binding (`_` when absent), the iterable, the label and
/// the body inside the loop.
fn lower_for(ctx: &mut Ctx, ast: ast::ForExpression) -> (r: Expression)
    requires
        old(ctx).inv(),
        ast.tree() == old(ctx).tree@,
        ast.id() < ast.tree().nodes@.len(),
    ensures
        old(ctx).step(*final(ctx)),
        shaped(*final(ctx), ast.id(), r),
        expr_below(r, final(ctx).expressions@.len()),
        r matches Expression::For { binding, .. } && binding.0 < final(ctx).interner@.len()
            && final(ctx).interner@[binding.0 as int] == (match first_of(
            ast.tokens_in(KindClass::Exactly(SyntaxKind::Identifier)),
        ) {
            Some(t) => t.text@,
            None => "_"@,
        }),
    decreases ast.tree().nodes@.len() - ast.id(), 1int,
{
    proof {
        use_type_invariant(&ast);
        ast.lemma_valid();
    }
    let ghost g0 = *ctx;
    let binding = match ast.binding() {
        Some(t) => ctx.intern(t.text.as_str()),
        None => ctx.intern("_"),
    };
    let ghost g1 = *ctx;
    let iterable = lower_opt_child(ctx, ast.iterable());
    let ghost g2 = *ctx;
    let label = intern_token(ctx, ast.label());
    let ghost g3 = *ctx;
    let body = lower_loop_body(ctx, label, ast.body());
    proof {
        lemma_step_trans(g0, g1, g2);
        lemma_step_trans(g0, g2, g3);
        lemma_step_trans(g0, g3, *ctx);
        assert(ctx.interner@[binding.0 as int] == g1.interner@[binding.0 as int]);
    }
    Expression::For { binding, iterable, label, body }
}

/// Lowers a range: start and end, each stored in the arena.
fn lower_range(ctx: &mut Ctx, ast: ast::RangeExpression) -> (r: Expression)
    requires
        old(ctx).inv(),
        ast.tree() == old(ctx).tree@,
        ast.id() < ast.tree().nodes@.len(),
    ensures
        old(ctx).step(*final(ctx)),
        shaped(*final(ctx), ast.id(), r),
        expr_below(r, final(ctx).expressions@.len()),
        r is Range,
    decreases ast.tree().nodes@.len() - ast.id(), 1int,
{
    proof {
        use_type_invariant(&ast);
        ast.lemma_valid();
    }
    let ghost g0 = *ctx;
    let start = lower_opt_child(ctx, ast.start());
    let ghost g1 = *ctx;
    let end = lower_opt_child(ctx, ast.end());
    proof {
        lemma_step_trans(g0, g1, *ctx);
    }
    Expression::Range { start, end }
}

/// Lowers an anonymous function: parameters, return type name and body (no
/// captures yet).
fn lower_function_expr(ctx: &mut Ctx, ast: ast::FunctionExpression) -> (r: Expression)
    requires
        old(ctx).inv(),
        ast.tree() == old(ctx).tree@,
        ast.id() < ast.tree().nodes@.len(),
    ensures
        old(ctx).step(*final(ctx)),
        shaped(*final(ctx), ast.id(), r),
        expr_below(r, final(ctx).expressions@.len()),
        r matches Expression::Function { captures, return_type, .. } && captures@.len() == 0 && (
        return_type is Some ==> first_of(ast.nodes_in(KindClass::Exactly(SyntaxKind::TypeAnnotation))) is Some),
    decreases ast.tree().nodes@.len() - ast.id(), 1int,
{
    proof {
        use_type_invariant(&ast);
        ast.lemma_valid();
    }
    let ghost g0 = *ctx;
    let params = lower_params(ctx, ast.params());
    let ghost g1 = *ctx;
    let return_type = match ast.return_type() {
        Some(t) => intern_token(ctx, t.type_token()),
        None => {
            proof {
                ctx.lemma_self_step();
            }
            None
        },
    };
    let ghost g2 = *ctx;
    let body = lower_opt_block(ctx, ast.body());
    proof {
        lemma_step_trans(g0, g1, g2);
        lemma_step_trans(g0, g2, *ctx);
        lemma_params_below_mono(params@, g1.expressions@.len(), ctx.expressions@.len());
    }
    Expression::Function { params, return_type, body, captures: Vec::new() }
}

/// Lowers a call: the callee, then each argument, each stored in the arena.
fn lower_call(ctx: &mut Ctx, ast: ast::CallExpression) -> (r: Expression)
    requires
        old(ctx).inv(),
        ast.tree() == old(ctx).tree@,
        ast.id() < ast.tree().nodes@.len(),
    ensures
        old(ctx).step(*final(ctx)),
        shaped(*final(ctx), ast.id(), r),
        expr_below(r, final(ctx).expressions@.len()),
        r matches Expression::Call { args, .. } && args@.len() == drop_one(
            ast.nodes_in(KindClass::Expression),
        ).len(),
    decreases ast.tree().nodes@.len() - ast.id(), 1int,
{
    proof {
        use_type_invariant(&ast);
        ast.lemma_valid();
    }
    let ghost g0 = *ctx;
    let callee = lower_opt_child(ctx, ast.callee());
    let ghost g1 = *ctx;
    let arg_asts = ast.args();
    let args = lower_each(ctx, &arg_asts, Ghost(ast.tree().nodes@.len() - ast.id()));
    proof {
        lemma_step_trans(g0, g1, *ctx);
    }
    Expression::Call { callee, args }
}

/// Lowers a list literal: each element, stored in the arena.
fn lower_list(ctx: &mut Ctx, ast: ast::ListExpression) -> (r: Expression)
    requires
        old(ctx).inv(),
        ast.tree() == old(ctx).tree@,
        ast.id() < ast.tree().nodes@.len(),
    ensures
        old(ctx).step(*final(ctx)),
        shaped(*final(ctx), ast.id(), r),
        expr_below(r, final(ctx).expressions@.len()),
        r matches Expression::List { elements } && elements@.len() == ast.nodes_in(
            KindClass::Expression,
        ).len(),
    decreases ast.tree().nodes@.len() - ast.id(), 1int,
{
    proof {
        use_type_invariant(&ast);
        ast.lemma_valid();
    }
    let element_asts = ast.elements();
    let elements = lower_each(ctx, &element_asts, Ghost(ast.tree().nodes@.len() - ast.id()));
    Expression::List { elements }
}

/// Lowers a tuple: each element, stored in the arena.
fn lower_tuple(ctx: &mut Ctx, ast: ast::TupleExpression) -> (r: Expression)
    requires
        old(ctx).inv(),
        ast.tree() == old(ctx).tree@,
        ast.id() < ast.tree().nodes@.len(),
    ensures
        old(ctx).step(*final(ctx)),
        shaped(*final(ctx), ast.id(), r),
        expr_below(r, final(ctx).expressions@.len()),
        r matches Expression::Tuple { elements } && elements@.len() == ast.nodes_in(
            KindClass::Expression,
        ).len(),
    decreases ast.tree().nodes@.len() - ast.id(), 1int,
{
    proof {
        use_type_invariant(&ast);
        ast.lemma_valid();
    }
    let element_asts = ast.elements();
    let elements = lower_each(ctx, &element_asts, Ghost(ast.tree().nodes@.len() - ast.id()));
    Expression::Tuple { elements }
}

/// Lowers an index expression: collection and index, each stored in the
/// arena.
fn lower_index(ctx: &mut Ctx, ast: ast::IndexExpression) -> (r: Expression)
    requires
        old(ctx).inv(),
        ast.tree() == old(ctx).tree@,
        ast.id() < ast.tree().nodes@.len(),
    ensures
        old(ctx).step(*final(ctx)),
        shaped(*final(ctx), ast.id(), r),
        expr_below(r, final(ctx).expressions@.len()),
        r is Index,
    decreases ast.tree().nodes@.len() - ast.id(), 1int,
{
    proof {
        use_type_invariant(&ast);
        ast.lemma_valid();
    }
    let ghost g0 = *ctx;
    let collection = lower_opt_child(ctx, ast.collection());
    let ghost g1 = *ctx;
    let index = lower_opt_child(ctx, ast.index());
    proof {
        lemma_step_trans(g0, g1, *ctx);
    }
    Expression::Index { collection, index }
}

/// Lowers an optional expression that is stored in the arena only when it
/// is present.
fn lower_present(ctx: &mut Ctx, ast: Option<ast::Expression>) -> (r: Option<ExprIdx>)
    requires
        old(ctx).inv(),
        measure_opt(ast) >= 0,
        ast matches Some(x) ==> x.tree() == old(ctx).tree@,
    ensures
        old(ctx).step(*final(ctx)),
        opt_made_from(final(ctx).origins@, r, node_of(ast)),
        r is Some <==> ast is Some,
        r matches Some(i) ==> i.0 + 1 == final(ctx).expressions@.len(),
    decreases measure_opt(ast), 4int,
{
    match ast {
        Some(e) => Some(lower_opt_child(ctx, Some(e))),
        None => {
            proof {
                ctx.lemma_self_step();
            }
            None
        },
    }
}

/// Lowers a slice: the collection, and the start and end when present.
fn lower_slice(ctx: &mut Ctx, ast: ast::SliceExpression) -> (r: Expression)
    requires
        old(ctx).inv(),
        ast.tree() == old(ctx).tree@,
        ast.id() < ast.tree().nodes@.len(),
    ensures
        old(ctx).step(*final(ctx)),
        shaped(*final(ctx), ast.id(), r),
        expr_below(r, final(ctx).expressions@.len()),
        r is Slice,
    decreases ast.tree().nodes@.len() - ast.id(), 1int,
{
    proof {
        use_type_invariant(&ast);
        ast.lemma_valid();
    }
    let ghost g0 = *ctx;
    let collection = lower_opt_child(ctx, ast.collection());
    let ghost g1 = *ctx;
    let start = lower_present(ctx, ast.start());
    let ghost g2 = *ctx;
    let end = lower_present(ctx, ast.end());
    proof {
        lemma_step_trans(g0, g1, g2);
        lemma_step_trans(g0, g2, *ctx);
    }
    Expression::Slice { collection, start, end }
}

/// Lowers a tuple field access: the tuple, and the field number (zero when
/// it cannot be read).
fn lower_tuple_access(ctx: &mut Ctx, ast: ast::TupleAccessExpression) -> (r: Expression)
    requires
        old(ctx).inv(),
        ast.tree() == old(ctx).tree@,
        ast.id() < ast.tree().nodes@.len(),
    ensures
        old(ctx).step(*final(ctx)),
        shaped(*final(ctx), ast.id(), r),
        expr_below(r, final(ctx).expressions@.len()),
        r matches Expression::TupleAccess { index, .. } && (match first_of(
            ast.tokens_in(KindClass::Exactly(SyntaxKind::Integer)),
        ) {
            Some(t) => match spec_parse_unsigned(t.text@, 10, u32::MAX as nat) {
                Some(v) => index == v,
                None => index == 0,
            },
            None => index == 0,
        }),
    decreases ast.tree().nodes@.len() - ast.id(), 1int,
{
    proof {
        use_type_invariant(&ast);
        ast.lemma_valid();
    }
    let tuple = lower_opt_child(ctx, ast.tuple());
    let index = match ast.index() {
        Some(v) => v,
        None => 0,
    };
    Expression::TupleAccess { tuple, index }
}


/// Node `j` has a name: an identifier token among its children.
pub open spec fn named(tree: SyntaxTree, j: usize) -> bool {
    first_of(tokens_where(tree.children_of(j), KindClass::Exactly(SyntaxKind::Identifier))) is Some
}

/// Node `j` is an index expression with both a collection and an index.
pub open spec fn complete_index(tree: SyntaxTree, j: usize) -> bool {
    &&& tree.kind_of(j) == SyntaxKind::IndexExpression
    &&& first_of(nodes_where(tree, tree.children_of(j), KindClass::Expression)) is Some
    &&& nth_of(nodes_where(tree, tree.children_of(j), KindClass::Expression), 1) is Some
}

/// The target of an index assignment node: its first expression.
pub open spec fn assignment_target(tree: SyntaxTree, j: usize) -> Option<usize> {
    first_of(nodes_where(tree, tree.children_of(j), KindClass::Expression))
}

/// Whether item node `j` yields an item of a block: not a `use`; a
/// definition or assignment needs a name; an index assignment needs an index
/// expression with collection and index as target.
pub open spec fn block_item_lowers(tree: SyntaxTree, j: usize) -> bool {
    let k = tree.kind_of(j);
    if k == SyntaxKind::UseStatement {
        false
    } else if k == SyntaxKind::FunctionDefinition || k == SyntaxKind::VariableDefinition || k
        == SyntaxKind::VariableAssignment {
        named(tree, j)
    } else if k == SyntaxKind::IndexAssignment {
        match assignment_target(tree, j) {
            Some(t) => complete_index(tree, t),
            None => false,
        }
    } else {
        true
    }
}

/// Whether item node `j` yields a top-level item: as in a block, except that
/// an index assignment whose target is not an index expression yields a
/// missing expression.
pub open spec fn item_lowers(tree: SyntaxTree, j: usize) -> bool {
    let k = tree.kind_of(j);
    if k == SyntaxKind::UseStatement {
        false
    } else if k == SyntaxKind::FunctionDefinition || k == SyntaxKind::VariableDefinition || k
        == SyntaxKind::VariableAssignment {
        named(tree, j)
    } else if k == SyntaxKind::IndexAssignment {
        match assignment_target(tree, j) {
            Some(t) => tree.kind_of(t) == SyntaxKind::IndexExpression ==> complete_index(tree, t),
            None => false,
        }
    } else {
        true
    }
}

/// The interned name of a named item.
fn intern_name(ctx: &mut Ctx, t: &Token) -> (r: Ident)
    requires
        old(ctx).inv(),
    ensures
        old(ctx).step(*final(ctx)),
        final(ctx).expressions@ == old(ctx).expressions@,
        final(ctx).origins == old(ctx).origins,
        final(ctx).diagnostics@ == old(ctx).diagnostics@,
        r.0 < final(ctx).interner@.len(),
        final(ctx).interner@[r.0 as int] == t.text@,
{
    ctx.intern(t.text.as_str())
}

/// Lowers the pieces of a named function: reports the definition with its
/// doc comment, interns the name, lowers parameters, return type name and
/// body.
fn lower_function_parts(ctx: &mut Ctx, f: ast::FunctionDefinition, t: &Token) -> (r: (
    Ident,
    Vec<FunctionParam>,
    Option<Ident>,
    ExprIdx,
))
    requires
        old(ctx).inv(),
        f.tree().wf(),
        f.id() < f.tree().nodes@.len(),
        f.tree() == old(ctx).tree@,
        name_token(f.tree(), f.id()) == Some(*t),
    ensures
        old(ctx).step(*final(ctx)),
        has_definition(final(ctx).tree@, final(ctx).symbols@, f.id()),
        function_parts_shape(final(ctx).tree@, final(ctx).origins@, final(ctx).interner@, f.id(), r.1@, r.2, r.3),
        r.0.0 < final(ctx).interner@.len(),
        final(ctx).interner@[r.0.0 as int] == t.text@,
        params_below(r.1@, final(ctx).expressions@.len()),
        r.3.0 + 1 == final(ctx).expressions@.len(),
    decreases f.tree().nodes@.len() - f.id(), 2int,
{
    proof {
        use_type_invariant(&f);
        f.lemma_valid();
    }
    let ghost g0 = *ctx;
    let doc = extract_doc_comment(f.tree_ref(), f.syntax());
    ctx.define_symbol(t.text.as_str(), f.text_range(), t.range, doc, Ghost(f.id()));
    let ghost g1 = *ctx;
    let name = intern_name(ctx, t);
    let ghost g2 = *ctx;
    let params = lower_params(ctx, f.params());
    let ghost g3 = *ctx;
    let return_type = match f.return_type() {
        Some(a) => intern_token(ctx, a.type_token()),
        None => {
            proof {
                ctx.lemma_self_step();
            }
            None
        },
    };
    let ghost g4 = *ctx;
    let body = lower_opt_block(ctx, f.body());
    proof {
        lemma_step_trans(g0, g1, g2);
        lemma_step_trans(g0, g2, g3);
        lemma_step_trans(g0, g3, g4);
        lemma_step_trans(g0, g4, *ctx);
        lemma_step_trans(g1, g2, g3);
        lemma_step_trans(g1, g3, g4);
        lemma_step_trans(g1, g4, *ctx);
        lemma_has_definition_extends(f.tree(), g1.symbols@, ctx.symbols@, f.id());
        lemma_params_below_mono(params@, g3.expressions@.len(), ctx.expressions@.len());
        assert(ctx.interner@[name.0 as int] == g2.interner@[name.0 as int]);
        lemma_params_shape_mono(f.tree(), g3.origins@, ctx.origins@, g3.interner@, ctx.interner@, first_node_of(f.tree(), f.id(), SyntaxKind::ParameterList), params@);
    }
    (name, params, return_type, body)
}

/// Lowers the collection and index of an index expression, each stored in
/// the arena, when both are present.
fn lower_index_target(ctx: &mut Ctx, ie: ast::IndexExpression) -> (r: Option<(ExprIdx, ExprIdx)>)
    requires
        old(ctx).inv(),
        ie.id() < ie.tree().nodes@.len(),
        ie.tree() == old(ctx).tree@,
    ensures
        old(ctx).step(*final(ctx)),
        r matches Some(p) ==> made_from(final(ctx).origins@, p.0, first_expr(ie.tree(), ie.id()))
            && made_from(final(ctx).origins@, p.1, second_expr(ie.tree(), ie.id())),
        r is Some <==> (first_of(ie.nodes_in(KindClass::Expression)) is Some && nth_of(
            ie.nodes_in(KindClass::Expression),
            1,
        ) is Some),
        r matches Some(p) ==> p.0.0 < final(ctx).expressions@.len() && p.1.0
            < final(ctx).expressions@.len(),
    decreases ie.tree().nodes@.len() - ie.id(), 3int,
{
    let ghost g0 = *ctx;
    let c = match ie.collection() {
        Some(e) => e,
        None => {
            proof {
                ctx.lemma_self_step();
            }
            return None;
        },
    };
    let collection = lower_opt_child(ctx, Some(c));
    let ghost g1 = *ctx;
    let x = match ie.index() {
        Some(e) => e,
        None => {
            return None;
        },
    };
    let index = lower_opt_child(ctx, Some(x));
    proof {
        lemma_step_trans(g0, g1, *ctx);
        assert(made_from(g1.origins@, collection, first_expr(ie.tree(), ie.id())));
    }
    Some((collection, index))
}

/// Lowers an item of a block (`None` for a `use`, for a definition or
/// assignment without a name, and for an index assignment without a
/// complete index target); `break` and `continue` are checked against the
/// enclosing loops.
#[verifier::rlimit(80)]
fn lower_block_item(ctx: &mut Ctx, ast: ast::Item) -> (r: Option<BlockItem>)
    requires
        old(ctx).inv(),
        ast.id() < ast.tree().nodes@.len(),
        ast.tree() == old(ctx).tree@,
    ensures
        old(ctx).step(*final(ctx)),
        r matches Some(bi) ==> block_item_shape(final(ctx).tree@, final(ctx).origins@, final(ctx).interner@, ast.id(), bi),
        r is Some ==> item_events_recorded(ast.tree(), ast.id(), final(ctx).symbols@),
        r matches Some(bi) ==> (bi is Expression <==> is_expression_kind(ast.tree().kind_of(ast.id()))),
        r is Some <==> block_item_lowers(ast.tree(), ast.id()),
        r matches Some(bi) ==> block_item_below(bi, final(ctx).expressions@.len()),
        ast is BreakStatement ==> r matches Some(BlockItem::Break { .. }),
        ast is ContinueStatement ==> r matches Some(BlockItem::Continue { .. }),
    decreases ast.tree().nodes@.len() - ast.id(), 3int,
{
    ast.check_valid();
    let ghost g0 = *ctx;
    match ast {
        ast::Item::FunctionDefinition(f) => {
            let t = match f.name() {
                Some(t) => t,
                None => {
                    proof {
                        ctx.lemma_self_step();
                    }
                    return None;
                },
            };
            let (name, params, return_type, body) = lower_function_parts(ctx, f, &t);
            let ghost g1 = *ctx;
            proof {
                lemma_params_below_mono(params@, g1.expressions@.len(), g1.expressions@.len());
            }
            let func = Expression::Function { params, return_type, body, captures: Vec::new() };
            let value = ctx.alloc_expr(func, f.text_range(), Ghost(Some(f.id())));
            proof {
                lemma_step_trans(g0, g1, *ctx);
                lemma_has_definition_extends(f.tree(), g1.symbols@, ctx.symbols@, f.id());
            }
            Some(BlockItem::Definition { name, value })
        },
        ast::Item::VariableDefinition(d) => {
            let t = match d.name() {
                Some(t) => t,
                None => {
                    proof {
                        ctx.lemma_self_step();
                    }
                    return None;
                },
            };
            let doc = extract_doc_comment(d.tree_ref(), d.syntax());
            ctx.define_symbol(t.text.as_str(), d.text_range(), t.range, doc, Ghost(d.id()));
            let ghost g1 = *ctx;
            let name = intern_name(ctx, &t);
            let ghost g2 = *ctx;
            let value = lower_opt_child(ctx, d.value());
            proof {
                lemma_step_trans(g0, g1, g2);
                lemma_step_trans(g0, g2, *ctx);
                lemma_step_trans(g1, g2, *ctx);
                lemma_has_definition_extends(d.tree(), g1.symbols@, ctx.symbols@, d.id());
            }
            Some(BlockItem::Definition { name, value })
        },
        ast::Item::VariableAssignment(a) => {
            let t = match a.name() {
                Some(t) => t,
                None => {
                    proof {
                        ctx.lemma_self_step();
                    }
                    return None;
                },
            };
            ctx.add_reference(t.text.as_str(), t.range, Ghost(a.id()));
            let ghost g1 = *ctx;
            let name = intern_name(ctx, &t);
            let ghost g2 = *ctx;
            let value = lower_opt_child(ctx, a.value());
            proof {
                lemma_step_trans(g0, g1, g2);
                lemma_step_trans(g0, g2, *ctx);
                lemma_step_trans(g1, g2, *ctx);
                lemma_has_reference_extends(g1.symbols@, ctx.symbols@, t.text@, t.range);
            }
            Some(BlockItem::Assignment { name, value })
        },
        ast::Item::IndexAssignment(ia) => {
            let target = match ia.target() {
                Some(t) => t,
                None => {
                    proof {
                        ctx.lemma_self_step();
                    }
                    return None;
                },
            };
            let value = lower_opt_child(ctx, ia.value());
            let ghost g1 = *ctx;
            target.check_valid();
            match target {
                ast::Expression::Index(ie) => {
                    match lower_index_target(ctx, ie) {
                        Some((collection, index)) => {
                            proof {
                                lemma_step_trans(g0, g1, *ctx);
                            }
                            Some(BlockItem::IndexAssignment { collection, index, value })
                        },
                        None => {
                            proof {
                                lemma_step_trans(g0, g1, *ctx);
                            }
                            None
                        },
                    }
                },
                _ => None,
            }
        },
        ast::Item::ReturnStatement(x) => {
            let value = lower_present(ctx, x.value());
            Some(BlockItem::Return { value })
        },
        ast::Item::EchoStatement(x) => {
            let value = lower_opt_child(ctx, x.value());
            Some(BlockItem::Echo { value })
        },
        ast::Item::BreakStatement(x) => {
            let range = x.text_range();
            proof {
                lemma_node_range(x.tree(), x.id());
            }
            let label = intern_token(ctx, x.label());
            let ghost g1 = *ctx;
            check_jump(ctx, range, label, true, Ghost(x.id()));
            proof {
                lemma_step_trans(g0, g1, *ctx);
            }
            Some(BlockItem::Break { label })
        },
        ast::Item::ContinueStatement(x) => {
            let range = x.text_range();
            proof {
                lemma_node_range(x.tree(), x.id());
            }
            let label = intern_token(ctx, x.label());
            let ghost g1 = *ctx;
            check_jump(ctx, range, label, false, Ghost(x.id()));
            proof {
                lemma_step_trans(g0, g1, *ctx);
            }
            Some(BlockItem::Continue { label })
        },
        ast::Item::Expression(x) => {
            let span = x.text_range();
            let v = lower_expression(ctx, Some(x));
            let ghost g1 = *ctx;
            let idx = ctx.alloc_expr(v, span, Ghost(Some(x.id())));
            proof {
                lemma_step_trans(g0, g1, *ctx);
            }
            Some(BlockItem::Expression(idx))
        },
        ast::Item::UseStatement(_) => {
            proof {
                ctx.lemma_self_step();
            }
            None
        },
    }
}


/// Lowers a top-level item (`None` for a `use`, for a definition or
/// assignment without a name, and for an index assignment without a target
/// or whose index target lacks its collection or index; an index assignment
/// to something else than an index becomes a missing expression).
#[verifier::rlimit(50)]
fn lower_ast_item(ctx: &mut Ctx, ast: ast::Item) -> (r: Option<Item>)
    requires
        old(ctx).inv(),
        ast.tree() == old(ctx).tree@,
    ensures
        old(ctx).step(*final(ctx)),
        r matches Some(it) ==> item_shape(final(ctx).tree@, final(ctx).origins@, final(ctx).interner@, final(ctx).resolution, ast.id(), it),
        r is Some ==> reported(final(ctx).tree@, item_value_node(ast.tree(), ast.id()), final(ctx).diagnostics@),
        r is Some ==> item_events_recorded(ast.tree(), ast.id(), final(ctx).symbols@),
        r is Some ==> recorded(final(ctx).tree@, item_value_node(ast.tree(), ast.id()), final(ctx).symbols@),
        r is Some <==> item_lowers(ast.tree(), ast.id()),
        r matches Some(it) ==> item_below(it, final(ctx).expressions@.len()),
{
    ast.check_valid();
    let ghost g0 = *ctx;
    match ast {
        ast::Item::FunctionDefinition(f) => {
            let t = match f.name() {
                Some(t) => t,
                None => {
                    proof {
                        ctx.lemma_self_step();
                    }
                    return None;
                },
            };
            let (name, params, return_type, body) = lower_function_parts(ctx, f, &t);
            Some(Item::Definition(Definition::Function { name, params, return_type, body }))
        },
        ast::Item::VariableDefinition(d) => {
            let t = match d.name() {
                Some(t) => t,
                None => {
                    proof {
                        ctx.lemma_self_step();
                    }
                    return None;
                },
            };
            let doc = extract_doc_comment(d.tree_ref(), d.syntax());
            ctx.define_symbol(t.text.as_str(), d.text_range(), t.range, doc, Ghost(d.id()));
            let ghost g1 = *ctx;
            let name = intern_name(ctx, &t);
            let ghost g2 = *ctx;
            let value = lower_expression(ctx, d.value());
            proof {
                lemma_step_trans(g0, g1, g2);
                lemma_step_trans(g0, g2, *ctx);
                lemma_step_trans(g1, g2, *ctx);
                lemma_has_definition_extends(d.tree(), g1.symbols@, ctx.symbols@, d.id());
            }
            Some(Item::Definition(Definition::Variable { name, value }))
        },
        ast::Item::VariableAssignment(a) => {
            let t = match a.name() {
                Some(t) => t,
                None => {
                    proof {
                        ctx.lemma_self_step();
                    }
                    return None;
                },
            };
            ctx.add_reference(t.text.as_str(), t.range, Ghost(a.id()));
            let ghost g1 = *ctx;
            let name = intern_name(ctx, &t);
            let ghost g2 = *ctx;
            let value = lower_expression(ctx, a.value());
            proof {
                lemma_step_trans(g0, g1, g2);
                lemma_step_trans(g0, g2, *ctx);
                lemma_step_trans(g1, g2, *ctx);
                lemma_has_reference_extends(g1.symbols@, ctx.symbols@, t.text@, t.range);
            }
            Some(Item::Assignment { name, value })
        },
        ast::Item::IndexAssignment(ia) => {
            let target = match ia.target() {
                Some(t) => t,
                None => {
                    proof {
                        ctx.lemma_self_step();
                    }
                    return None;
                },
            };
            let value = lower_expression(ctx, ia.value());
            let ghost g1 = *ctx;
            target.check_valid();
            match target {
                ast::Expression::Index(ie) => {
                    match lower_index_target(ctx, ie) {
                        Some((collection, index)) => {
                            proof {
                                lemma_step_trans(g0, g1, *ctx);
                                lemma_recorded_extends(g1.tree@, item_value_node(ast.tree(), ast.id()), g1.symbols@, ctx.symbols@);
                                lemma_reported_extends(g1.tree@, item_value_node(ast.tree(), ast.id()), g1.diagnostics@, ctx.diagnostics@);
                                lemma_expr_below_mono(
                                    value,
                                    g1.expressions@.len(),
                                    ctx.expressions@.len(),
                                );
                            }
                            Some(Item::IndexAssignment { collection, index, value })
                        },
                        None => {
                            proof {
                                lemma_step_trans(g0, g1, *ctx);
                            }
                            None
                        },
                    }
                },
                _ => Some(Item::Expression(Expression::Missing)),
            }
        },
        ast::Item::ReturnStatement(x) => {
            let value = lower_present(ctx, x.value());
            Some(Item::Expression(Expression::Return { value }))
        },
        ast::Item::EchoStatement(x) => {
            let value = lower_opt_child(ctx, x.value());
            Some(Item::Expression(Expression::Echo { value }))
        },
        ast::Item::BreakStatement(x) => {
            let range = x.text_range();
            proof {
                use_type_invariant(&x);
                x.lemma_valid();
                lemma_node_range(x.tree(), x.id());
            }
            let label = intern_token(ctx, x.label());
            let ghost g1 = *ctx;
            check_jump(ctx, range, label, true, Ghost(x.id()));
            proof {
                lemma_step_trans(g0, g1, *ctx);
            }
            Some(Item::Expression(Expression::Break { label }))
        },
        ast::Item::ContinueStatement(x) => {
            let range = x.text_range();
            proof {
                use_type_invariant(&x);
                x.lemma_valid();
                lemma_node_range(x.tree(), x.id());
            }
            let label = intern_token(ctx, x.label());
            let ghost g1 = *ctx;
            check_jump(ctx, range, label, false, Ghost(x.id()));
            proof {
                lemma_step_trans(g0, g1, *ctx);
            }
            Some(Item::Expression(Expression::Continue { label }))
        },
        ast::Item::Expression(x) => {
            let v = lower_expression(ctx, Some(x));
            Some(Item::Expression(v))
        },
        ast::Item::UseStatement(_) => {
            proof {
                ctx.lemma_self_step();
            }
            None
        },
    }
}

/// The result of lowering a file: the items with their ranges, the
/// expression arena with the range of each expression, the symbol events,
/// the diagnostics and the interner of the identifiers.
#[derive(Debug)]
pub struct LowerResult {
    pub items: Vec<Item>,
    pub expressions: Vec<Expression>,
    pub expr_spans: Vec<TextRange>,
    pub item_spans: Vec<TextRange>,
    pub symbols: Vec<SymbolEvent>,
    pub diagnostics: Vec<HirError>,
    pub interner: Interner,
}

impl LowerResult {
    /// Each expression refers only to expressions stored before it, each
    /// expression and each item has its range, and each item refers only to
    /// stored expressions.
    pub open spec fn wf(&self) -> bool {
        &&& arena_wf(self.expressions@)
        &&& self.expr_spans@.len() == self.expressions@.len()
        &&& self.item_spans@.len() == self.items@.len()
        &&& forall|k: int|
            0 <= k < self.items@.len() ==> item_below(
                #[trigger] self.items@[k],
                self.expressions@.len(),
            )
    }

    /// The text of an identifier.
    pub fn resolve(&self, ident: Ident) -> (r: &str)
        requires
            ident.0 < self.interner@.len(),
        ensures
            r@ == self.interner@[ident.0 as int],
    {
        self.interner.resolve(ident)
    }

    /// The text of a resolved identifier.
    pub fn resolve_ident(&self, ident: &ResolvedIdent) -> (r: &str)
        requires
            (match *ident {
                ResolvedIdent::Local(id) => id,
                ResolvedIdent::External { name, .. } => name,
            }).0 < self.interner@.len(),
        ensures
            r@ == self.interner@[(match *ident {
                ResolvedIdent::Local(id) => id,
                ResolvedIdent::External { name, .. } => name,
            }).0 as int],
    {
        match ident {
            ResolvedIdent::Local(id) => self.interner.resolve(*id),
            ResolvedIdent::External { name, .. } => self.interner.resolve(*name),
        }
    }
}

impl Default for LowerResult {
    fn default() -> (r: LowerResult)
        ensures
            r.wf(),
            r.items@.len() == 0,
            r.expressions@.len() == 0,
            r.symbols@.len() == 0,
            r.diagnostics@.len() == 0,
            r.interner@.len() == 0,
    {
        LowerResult {
            items: Vec::new(),
            expressions: Vec::new(),
            expr_spans: Vec::new(),
            item_spans: Vec::new(),
            symbols: Vec::new(),
            diagnostics: Vec::new(),
            interner: Interner::new(),
        }
    }
}

/// `r` is the lowering of the item nodes `ids` of tree `t` with resolution
/// data `res`: its items are those lowered from the nodes that yield one, in
/// order, each with the range of its node; there is a choice of the node
/// each stored expression was made from under which every expression is the
/// lowering of its node, with that node's range; every diagnostic is
/// warranted by a node of the tree, and every lowered node that reports by
/// itself (a division by the literal zero, an empty block) has its report
/// among the diagnostics; the symbol events pop only scopes they pushed,
/// close every scope they open, each definition or reference event is
/// warranted by a node of the tree, and every lowered named definition,
/// assignment and variable reference has its event.
pub open spec fn lowers_file(t: SyntaxTree, ids: Seq<usize>, res: Option<ResolutionData>, r: LowerResult) -> bool {
    let lo = top_lowering(t, ids);
    &&& events_warranted(t, r.symbols@)
    &&& scopes_nested(r.symbols@)
    &&& scope_depth(r.symbols@) == 0
    &&& r.item_spans@.len() == r.items@.len()
    &&& forall|k: int| 0 <= k < r.items@.len() ==> #[trigger] r.item_spans@[k] == t.nodes@[lo[k] as int].range
    &&& all_warranted(t, r.diagnostics@)
    &&& forall|k: int| 0 <= k < lo.len() ==> reported(t, item_value_node(t, #[trigger] lo[k]), r.diagnostics@)
    &&& forall|k: int| 0 <= k < lo.len() ==> item_events_recorded(t, #[trigger] lo[k], r.symbols@)
        && recorded(t, item_value_node(t, lo[k]), r.symbols@)
    &&& exists|o: Seq<Option<usize>>|
        arena_made_from(t, o, r.interner@, res, r.expressions@, r.expr_spans@) && items_shape(
            t,
            o,
            r.interner@,
            res,
            lo,
            r.items@,
        ) && arena_reported(t, o, r.diagnostics@) && arena_recorded(t, o, r.symbols@)
}

/// Lowers every item of a file, in order, with the given resolution data.
#[verifier::rlimit(50)]
fn lower_root(root: ast::Root, resolution: Option<ResolutionData>) -> (r: LowerResult)
    ensures
        r.wf(),
        r.items@.len() == top_lowering(root.tree(), root.nodes_in(KindClass::Item)).len(),
        lowers_file(root.tree(), root.nodes_in(KindClass::Item), resolution, r),
{
    let mut ctx = Ctx::new(Interner::new(), resolution, Ghost(root.tree()));
    let asts = root.items();
    let ghost t = root.tree();
    let ghost ids = root.nodes_in(KindClass::Item);
    let mut items: Vec<Item> = Vec::new();
    let mut item_spans: Vec<TextRange> = Vec::new();
    let mut i: usize = 0;
    proof {
        assert(ids.take(0) =~= Seq::<usize>::empty());
    }
    while i < asts.len()
        invariant
            ctx.inv(),
            ctx.tree@ == t,
            ctx.resolution == resolution,
            scope_depth(ctx.symbols@) == 0,
            t == root.tree(),
            asts@.len() == ids.len(),
            forall|k: int| #![trigger asts@[k]] 0 <= k < asts@.len() ==> (asts@[k].tree()
                == root.tree() && asts@[k].id() == ids[k]),
            i <= asts@.len(),
            items@.len() == item_spans@.len(),
            forall|k: int|
                0 <= k < items@.len() ==> item_below(#[trigger] items@[k], ctx.expressions@.len()),
            items_shape(t, ctx.origins@, ctx.interner@, resolution, top_lowering(t, ids.take(i as int)), items@),
            forall|k: int| 0 <= k < items@.len() ==> #[trigger] item_spans@[k] == t.nodes@[top_lowering(t, ids.take(i as int))[k] as int].range,
            forall|k: int| 0 <= k < top_lowering(t, ids.take(i as int)).len() ==> reported(t, item_value_node(t, #[trigger] top_lowering(t, ids.take(i as int))[k]), ctx.diagnostics@),
            forall|k: int| 0 <= k < top_lowering(t, ids.take(i as int)).len() ==> item_events_recorded(t, #[trigger] top_lowering(t, ids.take(i as int))[k], ctx.symbols@)
                && recorded(t, item_value_node(t, top_lowering(t, ids.take(i as int))[k]), ctx.symbols@),
        decreases asts@.len() - i,
    {
        let it = asts[i];
        let span = it.text_range();
        let ghost g1 = ctx;
        let ghost old_items = items@;
        let ghost old_spans = item_spans@;
        let ghost lo = top_lowering(t, ids.take(i as int));
        let lowered = lower_ast_item(&mut ctx, it);
        proof {
            assert(ids.take(i + 1).drop_last() =~= ids.take(i as int));
            assert(ids.take(i + 1).last() == ids[i as int]);
            assert forall|k: int| 0 <= k < old_items.len() implies item_shape(t, ctx.origins@, ctx.interner@, resolution, lo[k], #[trigger] old_items[k]) by {
                lemma_item_shape_mono(t, g1.origins@, ctx.origins@, g1.interner@, ctx.interner@, resolution, lo[k], old_items[k]);
            }
            assert forall|k: int| 0 <= k < lo.len() implies reported(t, item_value_node(t, #[trigger] lo[k]), ctx.diagnostics@) by {
                lemma_reported_extends(t, item_value_node(t, lo[k]), g1.diagnostics@, ctx.diagnostics@);
            }
            assert forall|k: int| 0 <= k < lo.len() implies item_events_recorded(t, #[trigger] lo[k], ctx.symbols@)
                && recorded(t, item_value_node(t, lo[k]), ctx.symbols@) by {
                lemma_item_events_extends(t, lo[k], g1.symbols@, ctx.symbols@);
                lemma_recorded_extends(t, item_value_node(t, lo[k]), g1.symbols@, ctx.symbols@);
            }
        }
        match lowered {
            Some(x) => {
                items.push(x);
                item_spans.push(span);
                proof {
                    let ln = top_lowering(t, ids.take(i + 1));
                    assert(ln =~= lo.push(ids[i as int]));
                    assert forall|k: int| 0 <= k < items@.len() implies item_shape(t, ctx.origins@, ctx.interner@, resolution, ln[k], #[trigger] items@[k]) by {
                        if k < old_items.len() {
                            assert(items@[k] == old_items[k]);
                        }
                    }
                    assert forall|k: int| 0 <= k < items@.len() implies #[trigger] item_spans@[k] == t.nodes@[ln[k] as int].range by {
                        if k < old_items.len() {
                            assert(item_spans@[k] == old_spans[k]);
                        }
                    }
                    assert forall|k: int| 0 <= k < ln.len() implies reported(t, item_value_node(t, #[trigger] ln[k]), ctx.diagnostics@) by {
                        if k < lo.len() {
                            assert(ln[k] == lo[k]);
                        }
                    }
                    assert forall|k: int| 0 <= k < ln.len() implies item_events_recorded(t, #[trigger] ln[k], ctx.symbols@)
                        && recorded(t, item_value_node(t, ln[k]), ctx.symbols@) by {
                        if k < lo.len() {
                            assert(ln[k] == lo[k]);
                        }
                    }
                }
            },
            None => {
                proof {
                    assert(top_lowering(t, ids.take(i + 1)) =~= lo);
                }
            },
        }
        proof {
            assert forall|k: int| 0 <= k < items@.len() implies item_below(
                #[trigger] items@[k],
                ctx.expressions@.len(),
            ) by {
                if k < old_items.len() {
                    assert(items@[k] == old_items[k]);
                    lemma_item_below_mono(old_items[k], g1.expressions@.len(), ctx.expressions@.len());
                }
            }
        }
        i = i + 1;
    }
    proof {
        assert(ids.take(ids.len() as int) =~= ids);
    }
    let ghost o = ctx.origins@;
    let r = LowerResult {
        items,
        expressions: ctx.expressions,
        expr_spans: ctx.expr_spans,
        item_spans,
        symbols: ctx.symbols,
        diagnostics: ctx.diagnostics,
        interner: ctx.interner,
    };
    proof {
        assert(arena_made_from(t, o, r.interner@, resolution, r.expressions@, r.expr_spans@));
        assert(items_shape(t, o, r.interner@, resolution, top_lowering(t, ids), r.items@));
        assert(arena_reported(t, o, r.diagnostics@));
        assert(arena_recorded(t, o, r.symbols@));
    }
    r
}


/// Lowers a file with a fresh interner and no resolution data: every name
/// is local.
pub fn lower(root: ast::Root) -> (r: LowerResult)
    ensures
        r.wf(),
        lowers_file(root.tree(), root.nodes_in(KindClass::Item), None, r),
{
    lower_root(root, None)
}

/// Lowers a file with a fresh interner, resolving names against the symbol
/// tables of the modules: a name that the current module re-exports from
/// another module refers to that module.
pub fn lower_with_resolution(root: ast::Root, module_id: ModuleId, symbol_tables: Vec<ModuleSymbols>) -> (r: LowerResult)
    ensures
        r.wf(),
        lowers_file(
            root.tree(),
            root.nodes_in(KindClass::Item),
            Some(ResolutionData { module_id, symbol_tables }),
            r,
        ),
{
    lower_root(root, Some(ResolutionData { module_id, symbol_tables }))
}

/// The result of lowering one item with a shared interner.
#[derive(Debug)]
pub struct LowerItemResult {
    pub item: Item,
    pub expressions: Vec<Expression>,
    pub expr_spans: Vec<TextRange>,
    pub item_span: TextRange,
    pub symbols: Vec<SymbolEvent>,
    pub diagnostics: Vec<HirError>,
}

impl LowerItemResult {
    /// Each expression refers only to expressions stored before it, each has
    /// its range, and the item refers only to stored expressions.
    pub open spec fn wf(&self) -> bool {
        &&& arena_wf(self.expressions@)
        &&& self.expr_spans@.len() == self.expressions@.len()
        &&& item_below(self.item, self.expressions@.len())
    }
}

/// `x` is the lowering of item node `j` of tree `t` with resolution data
/// `res`, its names keys of `names`: there is a choice of the node each
/// stored expression was made from under which every expression is the
/// lowering of its node, with that node's range, and the item is the
/// lowering of `j`; every diagnostic is warranted by a node of the tree, and
/// every lowered node that reports by itself has its report among them; the
/// symbol events pop only scopes they pushed, close every one they open,
/// each definition or reference event is warranted by a node of the tree,
/// and every lowered named definition, assignment and variable reference
/// has its event.
pub open spec fn lowers_item(t: SyntaxTree, j: usize, res: Option<ResolutionData>, names: Seq<Seq<char>>, x: LowerItemResult) -> bool {
    &&& events_warranted(t, x.symbols@)
    &&& scopes_nested(x.symbols@)
    &&& scope_depth(x.symbols@) == 0
    &&& all_warranted(t, x.diagnostics@)
    &&& reported(t, item_value_node(t, j), x.diagnostics@)
    &&& item_events_recorded(t, j, x.symbols@)
    &&& recorded(t, item_value_node(t, j), x.symbols@)
    &&& exists|o: Seq<Option<usize>>|
        arena_made_from(t, o, names, res, x.expressions@, x.expr_spans@) && item_shape(
            t,
            o,
            names,
            res,
            j,
            x.item,
        ) && arena_reported(t, o, x.diagnostics@) && arena_recorded(t, o, x.symbols@)
}

/// Lowers one item with the given interner and resolution data.
fn lower_item_in(interner: &mut Interner, ast_item: ast::Item, resolution: Option<ResolutionData>) -> (r: Option<LowerItemResult>)
    ensures
        r is Some <==> item_lowers(ast_item.tree(), ast_item.id()),
        r matches Some(x) ==> x.wf() && x.item_span == ast_item.tree().nodes@[ast_item.id() as int].range,
        r matches Some(x) ==> lowers_item(ast_item.tree(), ast_item.id(), resolution, final(interner)@, x),
        prefix_of(old(interner)@, final(interner)@),
{
    let mut own = Interner::new();
    std::mem::swap(&mut own, interner);
    let mut ctx = Ctx::new(own, resolution, Ghost(ast_item.tree()));
    let span = ast_item.text_range();
    let lowered = lower_ast_item(&mut ctx, ast_item);
    let ghost o = ctx.origins@;
    *interner = ctx.interner;
    match lowered {
        Some(item) => {
            let x = LowerItemResult {
                item,
                expressions: ctx.expressions,
                expr_spans: ctx.expr_spans,
                item_span: span,
                symbols: ctx.symbols,
                diagnostics: ctx.diagnostics,
            };
            proof {
                assert(arena_made_from(ast_item.tree(), o, interner@, resolution, x.expressions@, x.expr_spans@));
                assert(arena_reported(ast_item.tree(), o, x.diagnostics@));
                assert(arena_recorded(ast_item.tree(), o, x.symbols@));
            }
            Some(x)
        },
        None => None,
    }
}

/// Lowers one item with a shared interner and no resolution data; new
/// identifiers are added to the interner.
pub fn lower_single_item(interner: &mut Interner, ast_item: ast::Item) -> (r: Option<LowerItemResult>)
    ensures
        r is Some <==> item_lowers(ast_item.tree(), ast_item.id()),
        r matches Some(x) ==> x.wf() && x.item_span == ast_item.tree().nodes@[ast_item.id() as int].range,
        r matches Some(x) ==> lowers_item(ast_item.tree(), ast_item.id(), None, final(interner)@, x),
        prefix_of(old(interner)@, final(interner)@),
{
    lower_item_in(interner, ast_item, None)
}

/// Lowers one item with a shared interner, resolving names against the
/// symbol tables of the modules.
pub fn lower_single_item_with_resolution(interner: &mut Interner, ast_item: ast::Item, module_id: ModuleId, symbol_tables: Vec<ModuleSymbols>) -> (r: Option<LowerItemResult>)
    ensures
        r is Some <==> item_lowers(ast_item.tree(), ast_item.id()),
        r matches Some(x) ==> x.wf() && x.item_span == ast_item.tree().nodes@[ast_item.id() as int].range,
        r matches Some(x) ==> lowers_item(ast_item.tree(), ast_item.id(), Some(ResolutionData { module_id, symbol_tables }), final(interner)@, x),
        prefix_of(old(interner)@, final(interner)@),
{
    lower_item_in(interner, ast_item, Some(ResolutionData { module_id, symbol_tables }))
}

} // verus!
