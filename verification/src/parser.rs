//! What the parser is handed and what it reports.
use vstd::prelude::*;

use crate::cst::Span;
use crate::lexer::Token;

verus! {

/// What is wrong with the source, and where.
#[derive(Debug)]
pub struct ParseError {
    pub message: String,
    pub span: Span,
}

/// A fault at `span`.
pub fn create_diagnostic(span: Span, message: String) -> (error: ParseError)
    ensures
        error.message@ == message@,
        error.span == span,
{
    ParseError { message, span }
}

/// Tokens lexed before the parse starts. The nesting is bounded on them, and the parser
/// takes them over, so that the source is lexed once and each fault in it reported once.
#[derive(Debug)]
pub struct Lexed {
    pub tokens: Option<(Vec<Token>, Vec<Span>)>,
}

impl Lexed {
    pub fn new(tokens: Vec<Token>, spans: Vec<Span>) -> (lexed: Self)
        ensures
            lexed.tokens matches Some(held) && held.0@ == tokens@ && held.1@ == spans@,
    {
        Lexed { tokens: Some((tokens, spans)) }
    }

    /// The tokens, if nobody has taken them.
    pub fn create_tokens(&mut self) -> (taken: Option<(Vec<Token>, Vec<Span>)>)
        ensures
            taken == old(self).tokens,
            final(self).tokens is None,
    {
        let mut taken: Option<(Vec<Token>, Vec<Span>)> = None;
        std::mem::swap(&mut taken, &mut self.tokens);
        taken
    }
}

} // verus!
