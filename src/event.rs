use vstd::prelude::*;
use crate::lexer::SyntaxKind;

verus! {

/// One structural decision of the parser, replayed later into a tree.
#[derive(Debug, PartialEq)]
pub enum Event {
    StartNode { kind: SyntaxKind },
    /// Opens a node whose first child is whatever the events from
    /// `checkpoint` on produce.
    StartNodeAt { kind: SyntaxKind, checkpoint: usize },
    AddToken { kind: SyntaxKind, text: String },
    FinishNode,
}

} // verus!
