//! The lossless syntax tree: nodes of a kind with ordered children, and
//! tokens that hold their source text.
use vstd::prelude::*;
use crate::lexer::SyntaxKind;

verus! {

#[derive(Debug, PartialEq)]
pub struct SyntaxToken {
    pub kind: SyntaxKind,
    pub text: String,
}

#[derive(Debug, PartialEq)]
pub struct SyntaxNode {
    pub kind: SyntaxKind,
    pub children: Vec<SyntaxElement>,
}

#[derive(Debug, PartialEq)]
pub enum SyntaxElement {
    Node(SyntaxNode),
    Token(SyntaxToken),
}

/// A syntax tree as a mathematical value.
pub enum TreeV {
    Node(SyntaxKind, Seq<TreeV>),
    Token(SyntaxKind, Seq<char>),
}

pub open spec fn elements_view(s: Seq<SyntaxElement>) -> Seq<TreeV>
    decreases s, 0int,
{
    if s.len() == 0 {
        Seq::empty()
    } else {
        elements_view(s.drop_last()).push(element_view(s.last()))
    }
}

pub open spec fn element_view(e: SyntaxElement) -> TreeV
    decreases e, 0int,
{
    match e {
        SyntaxElement::Node(n) => TreeV::Node(n.kind, elements_view(n.children@)),
        SyntaxElement::Token(t) => TreeV::Token(t.kind, t.text@),
    }
}

pub open spec fn node_view(n: SyntaxNode) -> TreeV {
    TreeV::Node(n.kind, elements_view(n.children@))
}

/// The source text of a tree: the texts of its tokens in order.
pub open spec fn tree_text(t: TreeV) -> Seq<char>
    decreases t, 0int,
{
    match t {
        TreeV::Node(_, children) => trees_text(children),
        TreeV::Token(_, text) => text,
    }
}

pub open spec fn trees_text(s: Seq<TreeV>) -> Seq<char>
    decreases s, 0int,
{
    if s.len() == 0 {
        Seq::empty()
    } else {
        trees_text(s.drop_last()) + tree_text(s.last())
    }
}

/// The tree without its whitespace and comment tokens.
pub open spec fn strip(t: TreeV) -> TreeV
    decreases t, 1int,
{
    match t {
        TreeV::Node(kind, children) => TreeV::Node(kind, strip_all(children)),
        TreeV::Token(_, _) => t,
    }
}

pub open spec fn strip_all(s: Seq<TreeV>) -> Seq<TreeV>
    decreases s, 0int,
{
    if s.len() == 0 {
        Seq::empty()
    } else {
        let rest = strip_all(s.drop_last());
        match s.last() {
            TreeV::Token(kind, _) => if kind.spec_is_trivia() {
                rest
            } else {
                rest.push(s.last())
            },
            TreeV::Node(_, _) => rest.push(strip(s.last())),
        }
    }
}

/// The tree of `a op b op c ...` grouped to the left: each binary node holds
/// the tree of everything before its operator, the operator, and the last
/// operand.
pub open spec fn left_nested(sig: Seq<(SyntaxKind, Seq<char>)>) -> TreeV
    decreases sig.len(),
{
    if sig.len() < 3 {
        TreeV::Token(sig[0].0, sig[0].1)
    } else {
        let n = sig.len() as int;
        TreeV::Node(
            SyntaxKind::BinaryExpr,
            seq![
                left_nested(sig.subrange(0, n - 2)),
                TreeV::Token(sig[n - 2].0, sig[n - 2].1),
                TreeV::Token(sig[n - 1].0, sig[n - 1].1),
            ],
        )
    }
}

} // verus!
