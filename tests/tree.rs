use ducky::lexer::SyntaxKind;
use ducky::parser::parse;
use ducky::syntax::{SyntaxElement, SyntaxNode};

/// The tree with whitespace and comments left out: nodes as `Kind(...)`,
/// tokens as their text.
fn shape(node: &SyntaxNode) -> String {
    let mut parts = Vec::new();
    for child in &node.children {
        match child {
            SyntaxElement::Node(n) => parts.push(shape(n)),
            SyntaxElement::Token(t) => {
                if !t.kind.is_trivia() {
                    parts.push(t.text.clone())
                }
            },
        }
    }
    format!("{:?}({})", node.kind, parts.join(" "))
}

fn text(node: &SyntaxNode) -> String {
    let mut out = String::new();
    for child in &node.children {
        match child {
            SyntaxElement::Node(n) => out.push_str(&text(n)),
            SyntaxElement::Token(t) => out.push_str(&t.text),
        }
    }
    out
}

#[test]
fn additions_nest_to_the_left() {
    assert_eq!(shape(&parse("1+2+3").tree), "Root(BinaryExpr(BinaryExpr(1 + 2) + 3))");
}

#[test]
fn long_chains_nest_to_the_left() {
    assert_eq!(
        shape(&parse("a * b * c * d").tree),
        "Root(BinaryExpr(BinaryExpr(BinaryExpr(a * b) * c) * d))"
    );
    assert_eq!(shape(&parse("8-4-2").tree), "Root(BinaryExpr(BinaryExpr(8 - 4) - 2))");
    assert_eq!(shape(&parse("8/4/2").tree), "Root(BinaryExpr(BinaryExpr(8 / 4) / 2))");
}

#[test]
fn multiplication_nests_inside_addition() {
    assert_eq!(
        shape(&parse("1+2*3-4").tree),
        "Root(BinaryExpr(BinaryExpr(1 + BinaryExpr(2 * 3)) - 4))"
    );
}

#[test]
fn tree_keeps_every_character() {
    for input in ["1 + 2 # sum\n  * 3 ", "  ", "", "let x = ?", "# only a comment", "1 2 3"] {
        assert_eq!(text(&parse(input).tree), input);
    }
}

#[test]
fn empty_input_is_an_empty_root() {
    let tree = parse("").tree;
    assert_eq!(tree.kind, SyntaxKind::Root);
    assert!(tree.children.is_empty());
}

#[test]
fn whitespace_goes_to_the_innermost_open_node() {
    let tree = parse(" 1 + 2 ").tree;
    assert_eq!(tree.children.len(), 2);
    match &tree.children[1] {
        SyntaxElement::Node(n) => {
            assert_eq!(n.kind, SyntaxKind::BinaryExpr);
            assert_eq!(text(n), "1 + 2 ");
        },
        SyntaxElement::Token(_) => panic!("expected a node"),
    }
}

#[test]
fn tokens_after_the_expression_stay_in_the_root() {
    assert_eq!(shape(&parse("1 2").tree), "Root(1 2)");
}

#[test]
fn lone_operator_still_builds_a_node() {
    assert_eq!(shape(&parse("+ 1").tree), "Root(BinaryExpr(+ 1))");
    assert_eq!(shape(&parse(" # c").tree), "Root()");
}
