//! The parse tree: every rule the grammar matched and every token under it, in order.
use vstd::prelude::*;

use crate::lexer::Token;

verus! {

/// The bytes of the source a node covers.
#[derive(Debug, Clone, Copy, PartialEq, Eq, Structural)]
pub struct Span {
    pub start: usize,
    pub end: usize,
}

/// A rule of the grammar. An alternative that renames its node has a rule of its own, so
/// the bare `Stmt` and `Primary` stand only in a tree whose parse failed.
#[derive(Debug, Clone, Copy, PartialEq, Eq, Structural)]
pub enum Rule {
    Root,
    Query,
    StmtList,
    Stmt,
    BindStmt,
    ImplicitBindStmt,
    NegationStmt,
    Pattern,
    Disjunction,
    Branch,
    Fact,
    FactPattern,
    AccessPattern,
    Primary,
    WildcardPrimary,
    NeverPrimary,
    VarPrimary,
    NatPrimary,
    IntPrimary,
    StringPrimary,
    StringPrefixPrimary,
    AnonRecordPrimary,
    ParenPrimary,
    SubqueryPrimary,
    FieldList,
    Field,
    Error,
}

/// A node of the parse tree.
#[derive(Debug)]
pub enum CstNode {
    Rule { rule: Rule, span: Span, children: Vec<CstNode> },
    Token { token: Token, text: String, span: Span },
}

impl CstNode {
    /// The bytes a node covers.
    pub open spec fn covers(self) -> Span {
        match self {
            CstNode::Rule { span, .. } => span,
            CstNode::Token { span, .. } => span,
        }
    }

    /// The bytes a node covers.
    pub fn span(&self) -> (span: Span)
        ensures
            span == self.covers(),
    {
        match self {
            CstNode::Rule { span, .. } => *span,
            CstNode::Token { span, .. } => *span,
        }
    }
}

} // verus!
