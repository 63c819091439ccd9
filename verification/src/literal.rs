//! Values of literal tokens.
use vstd::prelude::*;

use crate::cst::{
    is_ascii_char, token_text_wf, tokens_where, without_underscores, Element, KindClass,
    SyntaxKind, SyntaxTree, Token,
};
use crate::text::{
    chars_of, parse_unsigned, process_escapes, remove_underscores, spec_parse_unsigned,
    spec_unescape, string_from_chars,
};

verus! {

/// The value of a literal. A float is kept as the text of its token with the
/// digit separators removed.
#[derive(Debug, Clone, PartialEq, Eq)]
pub enum LiteralValue {
    Integer(u64),
    Float(String),
    Boolean(bool),
    String(String),
}

/// The value of a literal with texts as character sequences.
pub enum LiteralView {
    Integer(u64),
    Float(Seq<char>),
    Boolean(bool),
    String(Seq<char>),
}

/// The view of an optional literal value.
pub open spec fn literal_view(v: Option<LiteralValue>) -> Option<LiteralView> {
    match v {
        Some(LiteralValue::Integer(n)) => Some(LiteralView::Integer(n)),
        Some(LiteralValue::Float(s)) => Some(LiteralView::Float(s@)),
        Some(LiteralValue::Boolean(b)) => Some(LiteralView::Boolean(b)),
        Some(LiteralValue::String(s)) => Some(LiteralView::String(s@)),
        None => None,
    }
}

/// An integer literal in `radix` from its digits, when they parse as a `u64`.
pub open spec fn integer_view(digits: Seq<char>, radix: u32) -> Option<LiteralView> {
    match spec_parse_unsigned(digits, radix, u64::MAX as nat) {
        Some(v) => Some(LiteralView::Integer(v as u64)),
        None => None,
    }
}

/// The value of a literal token: decimal, binary, octal and hex integers (the
/// latter after their two-character prefix) read without `_` as a `u64`;
/// floats as their text without `_`; strings without their quotes, escapes
/// processed; multi-line strings without their triple quotes, verbatim;
/// `true` and `false`.
pub open spec fn spec_literal_of(t: Token) -> Option<LiteralView> {
    let text = t.text@;
    match t.kind {
        SyntaxKind::Integer => integer_view(without_underscores(text), 10),
        SyntaxKind::BinaryInteger => integer_view(without_underscores(text).skip(2), 2),
        SyntaxKind::OctalInteger => integer_view(without_underscores(text).skip(2), 8),
        SyntaxKind::HexInteger => integer_view(without_underscores(text).skip(2), 16),
        SyntaxKind::Float | SyntaxKind::FloatExponent => Some(
            LiteralView::Float(without_underscores(text)),
        ),
        SyntaxKind::String => Some(
            LiteralView::String(spec_unescape(text.subrange(1, text.len() - 1))),
        ),
        SyntaxKind::MultiLineString => Some(LiteralView::String(text.subrange(3, text.len() - 3))),
        SyntaxKind::TrueKeyword => Some(LiteralView::Boolean(true)),
        SyntaxKind::FalseKeyword => Some(LiteralView::Boolean(false)),
        _ => None,
    }
}

fn sub_chars(v: &Vec<char>, from: usize, to: usize) -> (r: Vec<char>)
    requires
        from <= to <= v@.len(),
    ensures
        r@ == v@.subrange(from as int, to as int),
{
    let mut out: Vec<char> = Vec::new();
    let mut i: usize = from;
    while i < to
        invariant
            from <= i <= to <= v@.len(),
            out@ == v@.subrange(from as int, i as int),
        decreases to - i,
    {
        out.push(v[i]);
        i = i + 1;
        assert(out@ =~= v@.subrange(from as int, i as int));
    }
    out
}

fn integer_of(digits: &Vec<char>, radix: u32) -> (r: Option<LiteralValue>)
    requires
        2 <= radix <= 36,
    ensures
        literal_view(r) == integer_view(digits@, radix),
{
    match parse_unsigned(digits, radix, u64::MAX) {
        Some(v) => Some(LiteralValue::Integer(v)),
        None => None,
    }
}

/// The value of a literal token (see [`spec_literal_of`]).
pub fn literal_of(t: &Token) -> (r: Option<LiteralValue>)
    requires
        token_text_wf(t.kind, t.text@),
    ensures
        literal_view(r) == spec_literal_of(*t),
{
    let chars = chars_of(t.text.as_str());
    match t.kind {
        SyntaxKind::Integer => integer_of(&remove_underscores(&chars), 10),
        SyntaxKind::BinaryInteger | SyntaxKind::OctalInteger | SyntaxKind::HexInteger => {
            let plain = remove_underscores(&chars);
            let digits = sub_chars(&plain, 2, plain.len());
            assert(digits@ =~= without_underscores(t.text@).skip(2));
            let radix: u32 = match t.kind {
                SyntaxKind::BinaryInteger => 2,
                SyntaxKind::OctalInteger => 8,
                _ => 16,
            };
            integer_of(&digits, radix)
        },
        SyntaxKind::Float | SyntaxKind::FloatExponent => {
            let plain = remove_underscores(&chars);
            Some(LiteralValue::Float(string_from_chars(&plain)))
        },
        SyntaxKind::String => {
            let inner = sub_chars(&chars, 1, chars.len() - 1);
            let value = process_escapes(&inner);
            Some(LiteralValue::String(string_from_chars(&value)))
        },
        SyntaxKind::MultiLineString => {
            let inner = sub_chars(&chars, 3, chars.len() - 3);
            Some(LiteralValue::String(string_from_chars(&inner)))
        },
        SyntaxKind::TrueKeyword => Some(LiteralValue::Boolean(true)),
        SyntaxKind::FalseKeyword => Some(LiteralValue::Boolean(false)),
        _ => None,
    }
}

proof fn lemma_tokens_where_wf_elems(elems: Seq<Element>, c: KindClass)
    requires
        forall|k: int|
            0 <= k < elems.len() ==> (#[trigger] elems[k] matches Element::Token(t) ==> token_text_wf(
                t.kind,
                t.text@,
            )),
    ensures
        forall|k: int|
            0 <= k < tokens_where(elems, c).len() ==> token_text_wf(
                (#[trigger] tokens_where(elems, c)[k]).kind,
                tokens_where(elems, c)[k].text@,
            ),
    decreases elems.len(),
{
    if elems.len() > 0 {
        let rest = elems.drop_first();
        assert forall|k: int| 0 <= k < rest.len() implies (#[trigger] rest[k] matches Element::Token(
            t,
        ) ==> token_text_wf(t.kind, t.text@)) by {
            assert(rest[k] == elems[k + 1]);
        }
        lemma_tokens_where_wf_elems(rest, c);
    }
}

/// Tokens found among the children of a node of a well-formed tree have the
/// texts the lexer makes.
pub proof fn lemma_tokens_where_wf(tree: SyntaxTree, elems: Seq<Element>, id: usize, c: KindClass)
    requires
        tree.wf(),
        id < tree.nodes@.len(),
        elems == tree.children_of(id),
    ensures
        forall|k: int|
            0 <= k < tokens_where(elems, c).len() ==> token_text_wf(
                (#[trigger] tokens_where(elems, c)[k]).kind,
                tokens_where(elems, c)[k].text@,
            ),
{
    assert forall|k: int| 0 <= k < elems.len() implies (#[trigger] elems[k] matches Element::Token(
        t,
    ) ==> token_text_wf(t.kind, t.text@)) by {
        assert(tree.nodes@[id as int].children@[k] == elems[k]);
    }
    lemma_tokens_where_wf_elems(elems, c);
}

} // verus!
