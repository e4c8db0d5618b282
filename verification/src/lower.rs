//! From the parse tree to the typed store.
//!
//! Lowering is where the permissive grammar first meets meaning, so it is where a name
//! the schema does not have and a literal that denotes nothing are reported. Nothing
//! here fails on a malformed tree: a child the parse did not produce becomes an
//! [`ExprKind::Error`] node.
use vstd::prelude::*;
use vstd::utf8::*;

use crate::boxed;
use crate::boxed::{seal, seal_copy};
use crate::cst::{CstNode, Rule, Span};
use crate::diag::{Code, Diagnostics, Report};
use crate::lexer;
use crate::lexer::{parse_nat, signed_literal, unescape_str, LiteralError, Token};
use crate::schema::{LocalInterner, Names, PredicateId, Schema, Symbol};
use crate::syntax;
use crate::syntax::{Ast, ExprKind, FieldRef, Literal, NodeId, NodeSpan, Query, QueryStmt, SyntaxTree};
use crate::text;
use crate::text::{around, comes_before, same_text};

verus! {

/// The field name that reads a fact's value side rather than a key field.
pub const VALUE_FIELD: &'static str = "value";

// ---- what a tree lowers to --------------------------------------------------

/// What lowering has come to so far: the nodes, the names, and the reports.
#[verifier::ext_equal]
pub struct Lowered {
    pub kinds: Seq<ExprKind>,
    pub spans: Seq<NodeSpan>,
    pub names: Names,
    pub reports: Seq<Report>,
}

/// A span as the store keeps it.
pub open spec fn narrow(span: Span) -> NodeSpan {
    NodeSpan { start: span.start as u32, end: span.end as u32 }
}

impl Lowered {
    /// One node more, and where it stands.
    pub open spec fn node(self, kind: ExprKind, span: Span) -> (NodeId, Lowered) {
        (
            NodeId(self.kinds.len() as usize),
            Lowered {
                kinds: self.kinds.push(kind),
                spans: self.spans.push(narrow(span)),
                ..self
            },
        )
    }

    /// A node standing in for a child the parse did not produce.
    pub open spec fn hole(self, span: Span) -> (NodeId, Lowered) {
        self.node(ExprKind::Error, span)
    }

    /// One report more.
    pub open spec fn reporting(self, code: Code, message: Seq<char>, span: Span) -> Lowered {
        Lowered {
            reports: self.reports.push(Report { code, message, span: narrow(span) }),
            ..self
        }
    }

    /// A node standing for a literal that denotes nothing, reported.
    pub open spec fn bad_literal(self, error: LiteralError, span: Span) -> (NodeId, Lowered) {
        self.reporting(error.report_code(), error.wording(), span).hole(span)
    }

    /// One name more.
    pub open spec fn naming(self, text: Seq<char>) -> (Symbol, Lowered) {
        (self.names.interned(text), Lowered { names: self.names.with(text), ..self })
    }

    /// The node at `id`, or one standing in for it.
    pub open spec fn or_hole(self, id: Option<NodeId>, span: Span) -> (NodeId, Lowered) {
        match id {
            Some(id) => (id, self),
            None => self.hole(span),
        }
    }
}

/// A record field, and where it was written.
#[derive(Debug, Clone, Copy, PartialEq, Eq, Structural)]
pub struct Field {
    pub name: Symbol,
    pub value: NodeId,
    pub span: Span,
}

/// What a node of the parse tree contributes to the one above it.
pub enum Made {
    Query(Query),
    Stmts(Seq<QueryStmt>),
    Stmt(QueryStmt),
    Pattern(NodeId),
    Fields(Seq<Field>),
    Field(Field),
    Nothing,
}

/// The first query among some contributions.
pub open spec fn first_query(outs: Seq<Made>) -> Option<Query>
    decreases outs.len(),
{
    if outs.len() == 0 {
        None
    } else {
        match (first_query(outs.drop_last()), outs.last()) {
            (Some(query), _) => Some(query),
            (None, Made::Query(query)) => Some(query),
            _ => None,
        }
    }
}

/// The patterns among them, in order.
pub open spec fn patterns(outs: Seq<Made>) -> Seq<NodeId>
    decreases outs.len(),
{
    if outs.len() == 0 {
        Seq::empty()
    } else {
        match outs.last() {
            Made::Pattern(id) => patterns(outs.drop_last()).push(id),
            _ => patterns(outs.drop_last()),
        }
    }
}

/// The statements among them, in order.
pub open spec fn stmts(outs: Seq<Made>) -> Seq<QueryStmt>
    decreases outs.len(),
{
    if outs.len() == 0 {
        Seq::empty()
    } else {
        match outs.last() {
            Made::Stmt(stmt) => stmts(outs.drop_last()).push(stmt),
            _ => stmts(outs.drop_last()),
        }
    }
}

/// The last list of statements among them.
pub open spec fn last_stmts(outs: Seq<Made>) -> Seq<QueryStmt>
    decreases outs.len(),
{
    if outs.len() == 0 {
        Seq::empty()
    } else {
        match outs.last() {
            Made::Stmts(stmts) => stmts,
            _ => last_stmts(outs.drop_last()),
        }
    }
}

/// The fields among them, in order.
pub open spec fn fields(outs: Seq<Made>) -> Seq<Field>
    decreases outs.len(),
{
    if outs.len() == 0 {
        Seq::empty()
    } else {
        match outs.last() {
            Made::Field(field) => fields(outs.drop_last()).push(field),
            _ => fields(outs.drop_last()),
        }
    }
}

/// The first list of fields among them.
pub open spec fn first_fields(outs: Seq<Made>) -> Option<Seq<Field>>
    decreases outs.len(),
{
    if outs.len() == 0 {
        None
    } else {
        match (first_fields(outs.drop_last()), outs.last()) {
            (Some(fields), _) => Some(fields),
            (None, Made::Fields(fields)) => Some(fields),
            _ => None,
        }
    }
}

/// The text of the first `token` directly among some nodes.
pub open spec fn token_of(nodes: Seq<CstNode>, token: Token) -> Option<Seq<char>>
    decreases nodes.len(),
{
    if nodes.len() == 0 {
        None
    } else {
        match (token_of(nodes.drop_last(), token), nodes.last()) {
            (Some(text), _) => Some(text),
            (None, CstNode::Token { token: found, text, .. }) => if found == token {
                Some(text@)
            } else {
                None
            },
            _ => None,
        }
    }
}

/// The same, where no such token is the empty text.
pub open spec fn token_or_empty(nodes: Seq<CstNode>, token: Token) -> Seq<char> {
    match token_of(nodes, token) {
        Some(text) => text,
        None => Seq::empty(),
    }
}

/// The first of some patterns.
pub open spec fn first(ids: Seq<NodeId>) -> Option<NodeId> {
    if ids.len() > 0 {
        Some(ids[0])
    } else {
        None
    }
}

/// The last of some patterns.
pub open spec fn latest(ids: Seq<NodeId>) -> Option<NodeId> {
    if ids.len() > 0 {
        Some(ids.last())
    } else {
        None
    }
}

// ---- records ----------------------------------------------------------------

/// A name's text, or nothing.
pub open spec fn name_text(names: Names, symbol: Symbol) -> Seq<char> {
    match names.text(symbol) {
        Some(text) => text,
        None => Seq::empty(),
    }
}

/// A field behind the ones its name does not come before.
pub open spec fn inserted(sorted: Seq<Field>, field: Field, names: Names) -> Seq<Field>
    decreases sorted.len(),
{
    if sorted.len() == 0 || !text::before(
        name_text(names, field.name),
        name_text(names, sorted.last().name),
    ) {
        sorted.push(field)
    } else {
        inserted(sorted.drop_last(), field, names).push(sorted.last())
    }
}

/// Some fields in the order of their names; two of the same name as they were.
pub open spec fn by_name(fields: Seq<Field>, names: Names) -> Seq<Field>
    decreases fields.len(),
{
    if fields.len() == 0 {
        Seq::empty()
    } else {
        inserted(by_name(fields.drop_last(), names), fields.last(), names)
    }
}

/// The first field of each name.
pub open spec fn kept(fields: Seq<Field>) -> Seq<Field>
    decreases fields.len(),
{
    if fields.len() == 0 {
        Seq::empty()
    } else {
        let before = kept(fields.drop_last());
        if before.len() > 0 && before.last().name == fields.last().name {
            before
        } else {
            before.push(fields.last())
        }
    }
}

/// The other fields, in order.
pub open spec fn repeated(fields: Seq<Field>) -> Seq<Field>
    decreases fields.len(),
{
    if fields.len() == 0 {
        Seq::empty()
    } else {
        let before = kept(fields.drop_last());
        if before.len() > 0 && before.last().name == fields.last().name {
            repeated(fields.drop_last()).push(fields.last())
        } else {
            repeated(fields.drop_last())
        }
    }
}

/// Each of some fields reported as given twice.
pub open spec fn given_twice(st: Lowered, fields: Seq<Field>) -> Lowered
    decreases fields.len(),
{
    if fields.len() == 0 {
        st
    } else {
        let field = fields.last();
        given_twice(st, fields.drop_last()).reporting(
            Code::RejectDuplicateField,
            "field `"@ + name_text(st.names, field.name) + "` is given twice"@,
            field.span,
        )
    }
}

/// What a record is made of.
pub open spec fn members(fields: Seq<Field>) -> Seq<(Symbol, NodeId)> {
    fields.map_values(|field: Field| (field.name, field.value))
}

/// A record of some fields, a repeated one reported.
pub open spec fn record(st: Lowered, fields: Seq<Field>, span: Span) -> (NodeId, Lowered) {
    let sorted = by_name(fields, st.names);
    given_twice(st, repeated(sorted)).node(
        ExprKind::Record(boxed::boxed(members(kept(sorted)))),
        span,
    )
}

// ---- access chains ----------------------------------------------------------

/// From the start of a chain's text through a step's own last token.
pub open spec fn step_covers(chain: Span, last: Span) -> Span {
    Span { start: chain.start, end: last.end }
}

/// A chain so far: the node it has come to, and the step that may yet be a select.
pub struct Chain {
    pub current: Option<NodeId>,
    pub pending: Option<(Symbol, Span)>,
    pub st: Lowered,
}

/// One `.name` step.
pub open spec fn accessed(st: Lowered, base: Option<NodeId>, name: Symbol, span: Span) -> (
    NodeId,
    Lowered,
) {
    let (base, st) = st.or_hole(base, span);
    let field = if name_text(st.names, name) == VALUE_FIELD@ {
        FieldRef::Value
    } else {
        FieldRef::Key(name)
    };
    st.node(ExprKind::Access(field, base), span)
}

impl Chain {
    /// The pending step is an access after all.
    pub open spec fn settled(self) -> Chain {
        match self.pending {
            Some((name, step)) => {
                let (id, st) = accessed(self.st, self.current, name, step);
                Chain { current: Some(id), pending: None, st }
            },
            None => self,
        }
    }

    /// The chain one child further.
    pub open spec fn step(self, node: CstNode, out: Made, chain: Span) -> Chain {
        match (out, node) {
            (Made::Pattern(id), _) => Chain { current: Some(id), ..self },
            (_, CstNode::Token { token: Token::LId, text, span }) => {
                let settled = self.settled();
                let (name, st) = settled.st.naming(text@);
                Chain { pending: Some((name, step_covers(chain, span))), st, ..settled }
            },
            (_, CstNode::Token { token: Token::Question, span, .. }) => match self.pending {
                Some((name, step)) => {
                    let (base, st) = self.st.or_hole(self.current, step);
                    let (id, st) = st.node(
                        ExprKind::Select(name, base),
                        step_covers(chain, span),
                    );
                    Chain { current: Some(id), pending: None, st }
                },
                None => self,
            },
            _ => self,
        }
    }
}

/// A chain through its first `k` children.
pub open spec fn chained(
    st: Lowered,
    nodes: Seq<CstNode>,
    outs: Seq<Made>,
    span: Span,
    k: nat,
) -> Chain
    decreases k,
{
    if k == 0 {
        Chain { current: None, pending: None, st }
    } else {
        chained(st, nodes, outs, span, (k - 1) as nat).step(nodes[k - 1], outs[k - 1], span)
    }
}

/// `X.a.b?`: one node per step, each over the one before it.
pub open spec fn access_chain(
    st: Lowered,
    nodes: Seq<CstNode>,
    outs: Seq<Made>,
    span: Span,
) -> (NodeId, Lowered) {
    let chain = chained(st, nodes, outs, span, nodes.len()).settled();
    chain.st.or_hole(chain.current, span)
}

// ---- rules ------------------------------------------------------------------

/// An integer literal.
pub open spec fn int_literal(st: Lowered, nodes: Seq<CstNode>, span: Span, negative: bool) -> (
    NodeId,
    Lowered,
) {
    match token_of(nodes, Token::Nat) {
        None => st.hole(span),
        Some(text) => match lexer::nat_value(text) {
            Err(error) => st.bad_literal(error, span),
            Ok(n) => match lexer::signed_value(n, negative) {
                Err(error) => st.bad_literal(error, span),
                Ok(value) => st.node(ExprKind::Lit(Literal::Int(value)), span),
            },
        },
    }
}

/// A string literal, or the strings beginning with one.
pub open spec fn str_literal(st: Lowered, nodes: Seq<CstNode>, span: Span, prefix: bool) -> (
    NodeId,
    Lowered,
) {
    match token_of(nodes, Token::String) {
        None => st.hole(span),
        Some(text) => match lexer::str_value(text) {
            Err(error) => st.bad_literal(error, span),
            Ok(decoded) => {
                let (symbol, st) = st.naming(decoded);
                st.node(
                    if prefix {
                        ExprKind::Prefix(symbol)
                    } else {
                        ExprKind::Lit(Literal::Str(symbol))
                    },
                    span,
                )
            },
        },
    }
}

/// A fact pattern.
pub open spec fn fact(
    st: Lowered,
    schema: Schema,
    nodes: Seq<CstNode>,
    outs: Seq<Made>,
    span: Span,
) -> (NodeId, Lowered) {
    let name = token_or_empty(nodes, Token::QId);
    let (key, st) = st.or_hole(first(patterns(outs)), span);
    match schema.position(name) {
        Some(at) => st.node(ExprKind::Fact(PredicateId(at as u32), key), span),
        None => st.reporting(
            Code::RejectUnknownPredicate,
            "`"@ + name + "` is not a predicate in this schema"@,
            span,
        ).hole(span),
    }
}

/// `pattern 'where' stmt_list`.
pub open spec fn query(st: Lowered, outs: Seq<Made>, span: Span) -> (Query, Lowered) {
    let (head, st) = st.or_hole(latest(patterns(outs)), span);
    (Query { head, body: boxed::boxed(last_stmts(outs)) }, st)
}

/// `pattern '=' pattern`. Half a bind keeps the half there is.
pub open spec fn bind(st: Lowered, outs: Seq<Made>, span: Span) -> (QueryStmt, Lowered) {
    let ids = patterns(outs);
    if ids.len() >= 2 {
        (QueryStmt::Bind(ids[0], ids[1]), st)
    } else {
        let (hole, st) = st.hole(span);
        if ids.len() == 1 {
            (QueryStmt::Bind(ids[0], hole), st)
        } else {
            (QueryStmt::Implicit(hole), st)
        }
    }
}

/// What a pattern that is one node contributes.
pub open spec fn pattern(made: (NodeId, Lowered)) -> (Made, Lowered) {
    (Made::Pattern(made.0), made.1)
}

/// What a rule comes to, its children having come to `outs`.
pub open spec fn ruled(
    st: Lowered,
    schema: Schema,
    rule: Rule,
    span: Span,
    nodes: Seq<CstNode>,
    outs: Seq<Made>,
) -> (Made, Lowered) {
    match rule {
        Rule::Root => match first_query(outs) {
            Some(query) => (Made::Query(query), st),
            None => (Made::Nothing, st),
        },
        Rule::Query => {
            let (query, st) = query(st, outs, span);
            (Made::Query(query), st)
        },
        Rule::StmtList => (Made::Stmts(stmts(outs)), st),
        Rule::BindStmt => {
            let (stmt, st) = bind(st, outs, span);
            (Made::Stmt(stmt), st)
        },
        Rule::ImplicitBindStmt | Rule::Stmt => {
            let (id, st) = st.or_hole(first(patterns(outs)), span);
            (Made::Stmt(QueryStmt::Implicit(id)), st)
        },
        Rule::NegationStmt => {
            let (id, st) = st.or_hole(first(patterns(outs)), span);
            (Made::Stmt(QueryStmt::Negation(id)), st)
        },
        Rule::Pattern | Rule::Branch | Rule::Fact | Rule::ParenPrimary | Rule::Primary => pattern(
            st.or_hole(first(patterns(outs)), span),
        ),
        Rule::Disjunction => pattern(
            st.node(ExprKind::Disjunction(boxed::boxed(patterns(outs))), span),
        ),
        Rule::WildcardPrimary => pattern(st.node(ExprKind::Wildcard, span)),
        Rule::NeverPrimary => pattern(st.node(ExprKind::Never, span)),
        Rule::VarPrimary => match token_of(nodes, Token::UId) {
            Some(text) => {
                let (symbol, st) = st.naming(text);
                pattern(st.node(ExprKind::Var(symbol), span))
            },
            None => pattern(st.hole(span)),
        },
        Rule::NatPrimary => pattern(int_literal(st, nodes, span, false)),
        Rule::IntPrimary => pattern(int_literal(st, nodes, span, true)),
        Rule::StringPrimary => pattern(str_literal(st, nodes, span, false)),
        Rule::StringPrefixPrimary => pattern(str_literal(st, nodes, span, true)),
        Rule::AnonRecordPrimary => pattern(
            record(
                st,
                match first_fields(outs) {
                    Some(fields) => fields,
                    None => Seq::empty(),
                },
                span,
            ),
        ),
        Rule::FieldList => (Made::Fields(fields(outs)), st),
        Rule::Field => {
            let (name, st) = st.naming(token_or_empty(nodes, Token::LId));
            let (value, st) = st.or_hole(first(patterns(outs)), span);
            (Made::Field(Field { name, value, span }), st)
        },
        Rule::FactPattern => pattern(fact(st, schema, nodes, outs, span)),
        Rule::AccessPattern => pattern(access_chain(st, nodes, outs, span)),
        Rule::SubqueryPrimary => {
            let (query, st) = query(st, outs, span);
            pattern(st.node(ExprKind::Subquery(query), span))
        },
        Rule::Error => (Made::Nothing, st),
    }
}

/// What a node of the parse tree comes to.
pub open spec fn lowered(st: Lowered, schema: Schema, node: CstNode) -> (Made, Lowered)
    decreases node, 1nat, 0nat,
{
    match node {
        CstNode::Token { .. } => (Made::Nothing, st),
        CstNode::Rule { rule, span, children } => {
            let (outs, st) = lowered_children(st, schema, node, children@.len());
            ruled(st, schema, rule, span, children@, outs)
        },
    }
}

/// What the first `k` children of a node come to, one after the other.
pub open spec fn lowered_children(st: Lowered, schema: Schema, node: CstNode, k: nat) -> (
    Seq<Made>,
    Lowered,
)
    decreases node, 0nat, k,
{
    match node {
        CstNode::Token { .. } => (Seq::empty(), st),
        CstNode::Rule { children, .. } => if k == 0 || k > children@.len() {
            (Seq::empty(), st)
        } else {
            let (outs, st) = lowered_children(st, schema, node, (k - 1) as nat);
            let (out, st) = lowered(st, schema, children@[k - 1]);
            (outs.push(out), st)
        },
    }
}

/// Before the first node.
pub open spec fn beginning(names: Names) -> Lowered {
    Lowered { kinds: Seq::empty(), spans: Seq::empty(), names, reports: Seq::empty() }
}

/// The query a whole parse comes to. A tree that holds none has a hole for a head.
pub open spec fn lowered_query(names: Names, schema: Schema, root: CstNode) -> (Query, Lowered) {
    let (out, st) = lowered(beginning(names), schema, root);
    match out {
        Made::Query(query) => (query, st),
        _ => {
            let (head, st) = st.hole(root.covers());
            (Query { head, body: boxed::boxed(Seq::empty()) }, st)
        },
    }
}

/// Whether a boxed slice can hold these elements.
pub open spec fn fits_a_box<T>(s: Seq<T>) -> bool {
    boxed::boxed(s)@ == s
}

/// Whether what a rule boxes up fits.
pub open spec fn rule_fits(names: Names, rule: Rule, outs: Seq<Made>) -> bool {
    match rule {
        Rule::Query | Rule::SubqueryPrimary => fits_a_box(last_stmts(outs)),
        Rule::Disjunction => fits_a_box(patterns(outs)),
        Rule::AnonRecordPrimary => fits_a_box(
            members(
                kept(
                    by_name(
                        match first_fields(outs) {
                            Some(fields) => fields,
                            None => Seq::empty(),
                        },
                        names,
                    ),
                ),
            ),
        ),
        _ => true,
    }
}

/// Whether everything that lowering a node boxes up fits.
pub open spec fn fits(st: Lowered, schema: Schema, node: CstNode) -> bool
    decreases node, 1nat, 0nat,
{
    match node {
        CstNode::Token { .. } => true,
        CstNode::Rule { rule, children, .. } => {
            let (outs, last) = lowered_children(st, schema, node, children@.len());
            fits_under(st, schema, node, children@.len()) && rule_fits(last.names, rule, outs)
        },
    }
}

/// The same of its first `k` children.
pub open spec fn fits_under(st: Lowered, schema: Schema, node: CstNode, k: nat) -> bool
    decreases node, 0nat, k,
{
    match node {
        CstNode::Token { .. } => true,
        CstNode::Rule { children, .. } => if k == 0 || k > children@.len() {
            true
        } else {
            let (outs, last) = lowered_children(st, schema, node, (k - 1) as nat);
            fits_under(st, schema, node, (k - 1) as nat) && fits(last, schema, children@[k - 1])
        },
    }
}

/// Whether everything that lowering a whole parse boxes up fits.
pub open spec fn query_fits(names: Names, schema: Schema, root: CstNode) -> bool {
    &&& fits(beginning(names), schema, root)
    &&& lowered(beginning(names), schema, root).0 is Query || fits_a_box(
        Seq::<QueryStmt>::empty(),
    )
}

// ---- lowering ---------------------------------------------------------------

/// What a lowered node contributes to the one above it.
enum Out {
    Query(Query),
    Stmts(Vec<QueryStmt>),
    Stmt(QueryStmt),
    Pattern(NodeId),
    Fields(Vec<Field>),
    Field(Field),
    Nothing,
}

impl View for Out {
    type V = Made;

    closed spec fn view(&self) -> Made {
        match *self {
            Out::Query(query) => Made::Query(query),
            Out::Stmts(stmts) => Made::Stmts(stmts@),
            Out::Stmt(stmt) => Made::Stmt(stmt),
            Out::Pattern(id) => Made::Pattern(id),
            Out::Fields(fields) => Made::Fields(fields@),
            Out::Field(field) => Made::Field(field),
            Out::Nothing => Made::Nothing,
        }
    }
}

spec fn made(outs: Seq<Out>) -> Seq<Made> {
    outs.map_values(|out: Out| out@)
}

impl Made {
    /// Every node named stands before position `n`.
    pub open spec fn below(self, n: nat) -> bool {
        match self {
            Made::Query(query) => syntax::query_below(query, n),
            Made::Stmts(stmts) => stmts_below(stmts, n),
            Made::Stmt(stmt) => syntax::stmt_below(stmt, n),
            Made::Pattern(id) => id.0 < n,
            Made::Fields(fields) => fields_below(fields, n),
            Made::Field(field) => field.value.0 < n,
            Made::Nothing => true,
        }
    }
}

/// Every node some statements name stands before position `n`.
pub open spec fn stmts_below(stmts: Seq<QueryStmt>, n: nat) -> bool {
    forall|i: int| 0 <= i < stmts.len() ==> syntax::stmt_below(#[trigger] stmts[i], n)
}

/// Every node some fields name stands before position `n`.
pub open spec fn fields_below(fields: Seq<Field>, n: nat) -> bool {
    forall|i: int| 0 <= i < fields.len() ==> (#[trigger] fields[i]).value.0 < n
}

/// Every node some patterns are stands before position `n`.
pub open spec fn ids_below(ids: Seq<NodeId>, n: nat) -> bool {
    forall|i: int| 0 <= i < ids.len() ==> (#[trigger] ids[i]).0 < n
}

/// Every node some contributions name stands before position `n`.
pub open spec fn all_below(outs: Seq<Made>, n: nat) -> bool {
    forall|i: int| 0 <= i < outs.len() ==> (#[trigger] outs[i]).below(n)
}

/// What is picked out of contributions names what they name.
proof fn lemma_picked_below(outs: Seq<Made>, n: nat)
    requires
        all_below(outs, n),
    ensures
        ids_below(patterns(outs), n),
        stmts_below(stmts(outs), n),
        stmts_below(last_stmts(outs), n),
        fields_below(fields(outs), n),
        first_fields(outs) matches Some(list) ==> fields_below(list, n),
        first_query(outs) matches Some(query) ==> syntax::query_below(query, n),
    decreases outs.len(),
{
    if outs.len() > 0 {
        assert(all_below(outs.drop_last(), n)) by {
            assert forall|i: int| 0 <= i < outs.len() - 1 implies (
            #[trigger] outs.drop_last()[i]).below(n) by {
                assert(outs[i].below(n));
            }
        }
        lemma_picked_below(outs.drop_last(), n);
        assert(outs[outs.len() - 1].below(n));
    }
}

/// What stands before a position stands before a later one.
proof fn lemma_below_later(made: Made, n: nat, m: nat)
    requires
        made.below(n),
        n <= m,
    ensures
        made.below(m),
{
    match made {
        Made::Query(query) => {
            assert forall|i: int| 0 <= i < query.body@.len() implies syntax::stmt_below(
                #[trigger] query.body@[i],
                m,
            ) by {
                assert(syntax::stmt_below(query.body@[i], n));
            }
        },
        Made::Stmts(stmts) => {
            assert forall|i: int| 0 <= i < stmts.len() implies syntax::stmt_below(
                #[trigger] stmts[i],
                m,
            ) by {
                assert(syntax::stmt_below(stmts[i], n));
            }
        },
        _ => {},
    }
}

/// The same query.
fn same_query(query: &Query) -> (copy: Query)
    ensures
        copy == *query,
{
    proof {
        boxed::lemma_boxed(query.body);
    }
    Query { head: query.head, body: seal_copy(&query.body) }
}

fn find_query(outs: &Vec<Out>) -> (found: Option<Query>)
    ensures
        found == first_query(made(outs@)),
{
    let mut found: Option<Query> = None;
    let mut i: usize = 0;
    while i < outs.len()
        invariant
            i <= outs@.len(),
            found == first_query(made(outs@.take(i as int))),
        decreases outs@.len() - i,
    {
        proof {
            lemma_made_last(outs@, i as int);
        }
        if found.is_none() {
            if let Out::Query(query) = &outs[i] {
                found = Some(same_query(query));
            }
        }
        i += 1;
    }
    proof {
        assert(outs@.take(i as int) =~= outs@);
    }
    found
}

/// One contribution more.
proof fn lemma_made_last(outs: Seq<Out>, i: int)
    requires
        0 <= i < outs.len(),
    ensures
        made(outs.take(i + 1)).len() == i + 1,
        made(outs.take(i + 1)).drop_last() == made(outs.take(i)),
        made(outs.take(i + 1)).last() == outs[i]@,
{
    assert(made(outs.take(i + 1)).drop_last() =~= made(outs.take(i)));
}

fn find_patterns(outs: &Vec<Out>) -> (ids: Vec<NodeId>)
    ensures
        ids@ == patterns(made(outs@)),
{
    let mut ids: Vec<NodeId> = Vec::new();
    let mut i: usize = 0;
    while i < outs.len()
        invariant
            i <= outs@.len(),
            ids@ == patterns(made(outs@.take(i as int))),
        decreases outs@.len() - i,
    {
        proof {
            lemma_made_last(outs@, i as int);
        }
        if let Out::Pattern(id) = &outs[i] {
            ids.push(*id);
        }
        i += 1;
    }
    proof {
        assert(outs@.take(i as int) =~= outs@);
    }
    ids
}

fn find_stmts(outs: &Vec<Out>) -> (found: Vec<QueryStmt>)
    ensures
        found@ == stmts(made(outs@)),
{
    let mut found: Vec<QueryStmt> = Vec::new();
    let mut i: usize = 0;
    while i < outs.len()
        invariant
            i <= outs@.len(),
            found@ == stmts(made(outs@.take(i as int))),
        decreases outs@.len() - i,
    {
        proof {
            lemma_made_last(outs@, i as int);
        }
        if let Out::Stmt(stmt) = &outs[i] {
            found.push(*stmt);
        }
        i += 1;
    }
    proof {
        assert(outs@.take(i as int) =~= outs@);
    }
    found
}

fn find_last_stmts(outs: &Vec<Out>) -> (found: Vec<QueryStmt>)
    ensures
        found@ == last_stmts(made(outs@)),
{
    let mut found: Vec<QueryStmt> = Vec::new();
    let mut i: usize = 0;
    while i < outs.len()
        invariant
            i <= outs@.len(),
            found@ == last_stmts(made(outs@.take(i as int))),
        decreases outs@.len() - i,
    {
        proof {
            lemma_made_last(outs@, i as int);
        }
        if let Out::Stmts(stmts) = &outs[i] {
            found = vstd::slice::slice_to_vec(stmts);
        }
        i += 1;
    }
    proof {
        assert(outs@.take(i as int) =~= outs@);
    }
    found
}

fn find_fields(outs: &Vec<Out>) -> (found: Vec<Field>)
    ensures
        found@ == fields(made(outs@)),
{
    let mut found: Vec<Field> = Vec::new();
    let mut i: usize = 0;
    while i < outs.len()
        invariant
            i <= outs@.len(),
            found@ == fields(made(outs@.take(i as int))),
        decreases outs@.len() - i,
    {
        proof {
            lemma_made_last(outs@, i as int);
        }
        if let Out::Field(field) = &outs[i] {
            found.push(*field);
        }
        i += 1;
    }
    proof {
        assert(outs@.take(i as int) =~= outs@);
    }
    found
}

fn find_first_fields(outs: &Vec<Out>) -> (found: Vec<Field>)
    ensures
        found@ == (match first_fields(made(outs@)) {
            Some(list) => list,
            None => Seq::empty(),
        }),
{
    let mut found: Option<Vec<Field>> = None;
    let mut i: usize = 0;
    while i < outs.len()
        invariant
            i <= outs@.len(),
            match (found, first_fields(made(outs@.take(i as int)))) {
                (Some(list), Some(expected)) => list@ == expected,
                (None, None) => true,
                _ => false,
            },
        decreases outs@.len() - i,
    {
        proof {
            lemma_made_last(outs@, i as int);
        }
        if found.is_none() {
            if let Out::Fields(list) = &outs[i] {
                found = Some(vstd::slice::slice_to_vec(list));
            }
        }
        i += 1;
    }
    proof {
        assert(outs@.take(i as int) =~= outs@);
    }
    match found {
        Some(list) => list,
        None => Vec::new(),
    }
}

/// The text of the first `token` directly among some nodes.
fn token_text(nodes: &Vec<CstNode>, token: Token) -> (found: Option<&str>)
    ensures
        match (found, token_of(nodes@, token)) {
            (Some(text), Some(expected)) => text@ == expected,
            (None, None) => true,
            _ => false,
        },
{
    let mut found: Option<&str> = None;
    let mut i: usize = 0;
    while i < nodes.len()
        invariant
            i <= nodes@.len(),
            match (found, token_of(nodes@.take(i as int), token)) {
                (Some(text), Some(expected)) => text@ == expected,
                (None, None) => true,
                _ => false,
            },
        decreases nodes@.len() - i,
    {
        proof {
            assert(nodes@.take(i + 1).drop_last() =~= nodes@.take(i as int));
            assert(nodes@.take(i + 1).last() == nodes@[i as int]);
        }
        if found.is_none() {
            if let CstNode::Token { token: kind, text, .. } = &nodes[i] {
                if *kind == token {
                    found = Some(text.as_str());
                }
            }
        }
        i += 1;
    }
    proof {
        assert(nodes@.take(i as int) =~= nodes@);
    }
    found
}

/// The same, where no such token is the empty text.
fn token_text_or_empty(nodes: &Vec<CstNode>, token: Token) -> (text: &str)
    ensures
        text@ == token_or_empty(nodes@, token),
{
    match token_text(nodes, token) {
        Some(text) => text,
        None => {
            proof {
                reveal_strlit("");
                assert(""@ =~= Seq::<char>::empty());
            }
            ""
        },
    }
}

/// A name's text, or nothing.
fn name_of(interner: &LocalInterner, symbol: Symbol) -> (text: &str)
    ensures
        text@ == name_text(interner@, symbol),
{
    match interner.try_resolve(symbol) {
        Some(text) => text,
        None => {
            proof {
                reveal_strlit("");
                assert(""@ =~= Seq::<char>::empty());
            }
            ""
        },
    }
}

/// From the start of a chain's text through a step's own last token. The start is the
/// chain's and not its base's, because a parenthesised base leaves its parentheses out.
fn step_span(chain: Span, last: Span) -> (span: Span)
    ensures
        span == step_covers(chain, last),
{
    Span { start: chain.start, end: last.end }
}

/// Where a field belongs among sorted ones.
proof fn lemma_inserted(sorted: Seq<Field>, field: Field, names: Names, p: int)
    requires
        0 <= p <= sorted.len(),
        p == 0 || !text::before(
            name_text(names, field.name),
            name_text(names, sorted[p - 1].name),
        ),
        forall|j: int|
            p <= j < sorted.len() ==> text::before(
                name_text(names, field.name),
                name_text(names, (#[trigger] sorted[j]).name),
            ),
    ensures
        inserted(sorted, field, names) == sorted.insert(p, field),
    decreases sorted.len(),
{
    if p == sorted.len() {
        assert(sorted.insert(p, field) =~= sorted.push(field));
        if sorted.len() > 0 {
            assert(sorted.last() == sorted[p - 1]);
        }
    } else {
        let shorter = sorted.drop_last();
        assert(text::before(
            name_text(names, field.name),
            name_text(names, sorted[sorted.len() - 1].name),
        ));
        lemma_inserted(shorter, field, names, p);
        assert(shorter.insert(p, field).push(sorted.last()) =~= sorted.insert(p, field));
    }
}

/// Some fields in the order of their names.
///
/// By name and not by symbol: a symbol's order is an accident of what was interned
/// first.
fn sort_by_name(fields: &Vec<Field>, interner: &LocalInterner) -> (sorted: Vec<Field>)
    ensures
        sorted@ == by_name(fields@, interner@),
{
    let mut sorted: Vec<Field> = Vec::new();
    let mut i: usize = 0;
    while i < fields.len()
        invariant
            i <= fields@.len(),
            sorted@ == by_name(fields@.take(i as int), interner@),
        decreases fields@.len() - i,
    {
        let field: Field = fields[i];
        let mut p: usize = sorted.len();
        while p > 0 && comes_before(
            name_of(interner, field.name),
            name_of(interner, sorted[p - 1].name),
        )
            invariant
                p <= sorted@.len(),
                forall|j: int|
                    p <= j < sorted@.len() ==> text::before(
                        name_text(interner@, field.name),
                        name_text(interner@, (#[trigger] sorted@[j]).name),
                    ),
            decreases p,
        {
            p -= 1;
        }
        proof {
            lemma_inserted(sorted@, field, interner@, p as int);
            assert(fields@.take(i + 1).drop_last() =~= fields@.take(i as int));
            assert(fields@.take(i + 1).last() == field);
        }
        sorted.insert(p, field);
        i += 1;
    }
    proof {
        assert(fields@.take(i as int) =~= fields@);
    }
    sorted
}

/// A lowering under way. The names it brings are in the interner it is handed.
struct Lowering<'a> {
    store: SyntaxTree,
    schema: &'a Schema,
    diagnostics: Diagnostics,
}

impl<'a> Lowering<'a> {
    spec fn state(self, names: Names) -> Lowered {
        Lowered {
            kinds: self.store.kinds(),
            spans: self.store.spans(),
            names,
            reports: self.diagnostics@,
        }
    }

    spec fn wf(self) -> bool {
        self.store.wf() && self.schema.wf()
    }

    /// How many nodes there are.
    spec fn len(self) -> nat {
        self.store.kinds().len()
    }

    /// A later state of the same lowering.
    spec fn grows(self, later: Self) -> bool {
        &&& later.wf()
        &&& later.schema == self.schema
        &&& self.len() <= later.len()
    }

    fn push(&mut self, kind: ExprKind, span: Span, Ghost(names): Ghost<Names>) -> (id: NodeId)
        requires
            old(self).wf(),
            syntax::children_below(kind, old(self).len()),
        ensures
            old(self).grows(*final(self)),
            id.0 < final(self).len(),
            (id, final(self).state(names)) == old(self).state(names).node(kind, span),
    {
        // A span is narrow in the store, to keep nodes compact.
        self.store.push(
            kind,
            NodeSpan { start: span.start as u32, end: span.end as u32 },
        )
    }

    fn error(&mut self, code: Code, message: String, span: Span, Ghost(names): Ghost<Names>)
        requires
            old(self).wf(),
        ensures
            old(self).grows(*final(self)),
            final(self).state(names) == old(self).state(names).reporting(code, message@, span),
    {
        self.diagnostics.error(
            code,
            message,
            NodeSpan { start: span.start as u32, end: span.end as u32 },
        );
    }

    /// The node at `id`, or one standing in for it.
    fn or_hole(&mut self, id: Option<NodeId>, span: Span, Ghost(names): Ghost<Names>) -> (
        found: NodeId)
        requires
            old(self).wf(),
            id matches Some(id) ==> id.0 < old(self).len(),
        ensures
            old(self).grows(*final(self)),
            found.0 < final(self).len(),
            (found, final(self).state(names)) == old(self).state(names).or_hole(id, span),
    {
        match id {
            Some(id) => id,
            None => self.push(ExprKind::Error, span, Ghost(names)),
        }
    }

    /// The first pattern among `outs`, or a hole.
    fn one_pattern(&mut self, outs: &Vec<Out>, span: Span, Ghost(names): Ghost<Names>) -> (
        found: NodeId)
        requires
            old(self).wf(),
            all_below(made(outs@), old(self).len()),
        ensures
            old(self).grows(*final(self)),
            found.0 < final(self).len(),
            (found, final(self).state(names)) == old(self).state(names).or_hole(
                first(patterns(made(outs@))),
                span,
            ),
    {
        let ids: Vec<NodeId> = find_patterns(outs);
        proof {
            lemma_picked_below(made(outs@), self.len());
        }
        let id: Option<NodeId> = if ids.len() > 0 {
            Some(ids[0])
        } else {
            None
        };
        self.or_hole(id, span, Ghost(names))
    }

    fn literal_error(&mut self, error: LiteralError, span: Span, Ghost(names): Ghost<Names>) -> (
        id: NodeId)
        requires
            old(self).wf(),
        ensures
            old(self).grows(*final(self)),
            id.0 < final(self).len(),
            (id, final(self).state(names)) == old(self).state(names).bad_literal(error, span),
    {
        self.error(error.code(), error.message().to_owned(), span, Ghost(names));
        self.push(ExprKind::Error, span, Ghost(names))
    }

    fn int_literal(
        &mut self,
        nodes: &Vec<CstNode>,
        span: Span,
        negative: bool,
        Ghost(names): Ghost<Names>,
    ) -> (id: NodeId)
        requires
            old(self).wf(),
        ensures
            old(self).grows(*final(self)),
            id.0 < final(self).len(),
            (id, final(self).state(names)) == int_literal(
                old(self).state(names),
                nodes@,
                span,
                negative,
            ),
    {
        let value: Result<i64, LiteralError> = match token_text(nodes, Token::Nat) {
            None => return self.or_hole(None, span, Ghost(names)),
            Some(text) => match parse_nat(text) {
                Err(error) => Err(error),
                Ok(n) => signed_literal(n, negative),
            },
        };
        match value {
            Ok(value) => self.push(ExprKind::Lit(Literal::Int(value)), span, Ghost(names)),
            Err(error) => self.literal_error(error, span, Ghost(names)),
        }
    }

    fn string_literal(
        &mut self,
        nodes: &Vec<CstNode>,
        span: Span,
        prefix: bool,
        interner: &mut LocalInterner,
    ) -> (id: NodeId)
        requires
            old(self).wf(),
            old(interner)@.has_room(1),
        ensures
            old(self).grows(*final(self)),
            id.0 < final(self).len(),
            final(interner)@.local.len() <= old(interner)@.local.len() + 1,
            (id, final(self).state(final(interner)@)) == str_literal(
                old(self).state(old(interner)@),
                nodes@,
                span,
                prefix,
            ),
    {
        match token_text(nodes, Token::String) {
            None => self.or_hole(None, span, Ghost(interner@)),
            Some(text) => match unescape_str(text) {
                Err(error) => self.literal_error(error, span, Ghost(interner@)),
                Ok(decoded) => {
                    let symbol: Symbol = interner.get_or_intern(decoded.as_str());
                    let kind = if prefix {
                        ExprKind::Prefix(symbol)
                    } else {
                        ExprKind::Lit(Literal::Str(symbol))
                    };
                    self.push(kind, span, Ghost(interner@))
                },
            },
        }
    }

    /// Record fields, sorted by name, a repeated one reported.
    fn record(&mut self, fields: Vec<Field>, span: Span, interner: &LocalInterner) -> (id: NodeId)
        requires
            old(self).wf(),
            fields_below(fields@, old(self).len()),
        ensures
            old(self).grows(*final(self)),
            id.0 < final(self).len(),
            (id, final(self).state(interner@)) == record(
                old(self).state(interner@),
                fields@,
                span,
            ),
            fits_a_box(members(kept(by_name(fields@, interner@)))),
    {
        let sorted: Vec<Field> = sort_by_name(&fields, interner);
        let ghost names = interner@;
        let mut members_kept: Vec<(Symbol, NodeId)> = Vec::new();
        let mut i: usize = 0;
        proof {
            lemma_by_name_below(fields@, names, self.len());
            assert(members(Seq::<Field>::empty()) =~= Seq::<(Symbol, NodeId)>::empty());
            assert(sorted@.take(0) =~= Seq::<Field>::empty());
        }
        while i < sorted.len()
            invariant
                self.wf(),
                old(self).grows(*self),
                names == interner@,
                self.len() == old(self).len(),
                i <= sorted@.len(),
                fields_below(sorted@, self.len()),
                fields_below(kept(sorted@.take(i as int)), self.len()),
                members_kept@ == members(kept(sorted@.take(i as int))),
                self.state(names) == given_twice(
                    old(self).state(names),
                    repeated(sorted@.take(i as int)),
                ),
            decreases sorted@.len() - i,
        {
            let field: Field = sorted[i];
            let ghost before = kept(sorted@.take(i as int));
            let ghost shown = repeated(sorted@.take(i as int));
            proof {
                assert(sorted@.take(i + 1).drop_last() =~= sorted@.take(i as int));
                assert(sorted@.take(i + 1).last() == field);
                lemma_given_twice_names(old(self).state(names), shown);
            }
            let n: usize = members_kept.len();
            if n > 0 && members_kept[n - 1].0 == field.name {
                let message: String = around(
                    "field `",
                    name_of(interner, field.name),
                    "` is given twice",
                );
                self.error(Code::RejectDuplicateField, message, field.span, Ghost(names));
                proof {
                    assert(shown.push(field).drop_last() =~= shown);
                }
            } else {
                members_kept.push((field.name, field.value));
                proof {
                    assert(members(before.push(field)) =~= members(before).push(
                        (field.name, field.value),
                    ));
                }
            }
            i += 1;
        }
        proof {
            assert(sorted@.take(i as int) =~= sorted@);
        }
        let sealed = seal(members_kept);
        self.push(ExprKind::Record(sealed), span, Ghost(names))
    }

    fn fact(
        &mut self,
        nodes: &Vec<CstNode>,
        outs: &Vec<Out>,
        span: Span,
        Ghost(names): Ghost<Names>,
    ) -> (id: NodeId)
        requires
            old(self).wf(),
            all_below(made(outs@), old(self).len()),
        ensures
            old(self).grows(*final(self)),
            id.0 < final(self).len(),
            (id, final(self).state(names)) == fact(
                old(self).state(names),
                *old(self).schema,
                nodes@,
                made(outs@),
                span,
            ),
    {
        let name: &str = token_text_or_empty(nodes, Token::QId);
        let predicate: Option<PredicateId> = match self.schema.find_position(name) {
            Some((id, _)) => Some(id),
            None => None,
        };
        let key: NodeId = self.one_pattern(outs, span, Ghost(names));
        match predicate {
            Some(id) => self.push(ExprKind::Fact(id, key), span, Ghost(names)),
            None => {
                let message: String = around("`", name, "` is not a predicate in this schema");
                self.error(Code::RejectUnknownPredicate, message, span, Ghost(names));
                self.push(ExprKind::Error, span, Ghost(names))
            },
        }
    }

    /// One `.name` step. [`VALUE_FIELD`] names the fact's value side rather than a key
    /// field.
    fn access(
        &mut self,
        base: Option<NodeId>,
        name: Symbol,
        span: Span,
        interner: &LocalInterner,
    ) -> (id: NodeId)
        requires
            old(self).wf(),
            base matches Some(id) ==> id.0 < old(self).len(),
        ensures
            old(self).grows(*final(self)),
            id.0 < final(self).len(),
            (id, final(self).state(interner@)) == accessed(
                old(self).state(interner@),
                base,
                name,
                span,
            ),
    {
        let base: NodeId = self.or_hole(base, span, Ghost(interner@));
        let field = if same_text(name_of(interner, name), VALUE_FIELD) {
            FieldRef::Value
        } else {
            FieldRef::Key(name)
        };
        self.push(ExprKind::Access(field, base), span, Ghost(interner@))
    }
}

proof fn lemma_given_twice_names(st: Lowered, fields: Seq<Field>)
    ensures
        given_twice(st, fields).names == st.names,
        given_twice(st, fields).kinds == st.kinds,
        given_twice(st, fields).spans == st.spans,
    decreases fields.len(),
{
    if fields.len() > 0 {
        lemma_given_twice_names(st, fields.drop_last());
    }
}

/// Sorting moves fields and makes none.
proof fn lemma_by_name_below(fields: Seq<Field>, names: Names, n: nat)
    requires
        fields_below(fields, n),
    ensures
        fields_below(by_name(fields, names), n),
    decreases fields.len(),
{
    if fields.len() > 0 {
        lemma_by_name_below(fields.drop_last(), names, n);
        lemma_inserted_below(
            by_name(fields.drop_last(), names),
            fields[fields.len() - 1],
            names,
            n,
        );
    }
}

proof fn lemma_inserted_below(sorted: Seq<Field>, field: Field, names: Names, n: nat)
    requires
        fields_below(sorted, n),
        field.value.0 < n,
    ensures
        fields_below(inserted(sorted, field, names), n),
    decreases sorted.len(),
{
    if sorted.len() > 0 {
        lemma_inserted_below(sorted.drop_last(), field, names, n);
        assert(sorted[sorted.len() - 1].value.0 < n);
    }
}

/// The most names lowering a tree can bring: one a rule, and one a child.
pub open spec fn names_in(node: CstNode) -> nat
    decreases node, 1nat, 0nat,
{
    match node {
        CstNode::Rule { children, .. } => 1 + children@.len() + names_under(
            node,
            children@.len(),
        ),
        CstNode::Token { .. } => 0,
    }
}

/// The most the first `k` children can bring together.
pub open spec fn names_under(node: CstNode, k: nat) -> nat
    decreases node, 0nat, k,
{
    match node {
        CstNode::Rule { children, .. } => if k == 0 || k > children@.len() {
            0
        } else {
            names_under(node, (k - 1) as nat) + names_in(children@[k - 1])
        },
        CstNode::Token { .. } => 0,
    }
}

proof fn lemma_names_under(node: CstNode, k: nat, n: nat)
    requires
        k <= n,
        node matches CstNode::Rule { children, .. } && n <= children@.len(),
    ensures
        names_under(node, k) <= names_under(node, n),
    decreases n,
{
    if k < n {
        lemma_names_under(node, k, (n - 1) as nat);
    }
}

impl<'a> Lowering<'a> {
    /// `X.a.b?` is a select of `b` over an access of `a` over `X`. The tree holds the
    /// chain flat, so the nesting is built here, innermost first.
    fn access_chain(
        &mut self,
        nodes: &Vec<CstNode>,
        outs: &Vec<Out>,
        span: Span,
        interner: &mut LocalInterner,
    ) -> (id: NodeId)
        requires
            old(self).wf(),
            outs@.len() == nodes@.len(),
            all_below(made(outs@), old(self).len()),
            old(interner)@.has_room(nodes@.len()),
        ensures
            old(self).grows(*final(self)),
            id.0 < final(self).len(),
            final(interner)@.local.len() <= old(interner)@.local.len() + nodes@.len(),
            (id, final(self).state(final(interner)@)) == access_chain(
                old(self).state(old(interner)@),
                nodes@,
                made(outs@),
                span,
            ),
    {
        let mut current: Option<NodeId> = None;
        let mut pending: Option<(Symbol, Span)> = None;
        let mut k: usize = 0;
        while k < nodes.len()
            invariant
                old(self).grows(*self),
                k <= nodes@.len(),
                outs@.len() == nodes@.len(),
                all_below(made(outs@), old(self).len()),
                current matches Some(id) ==> id.0 < self.len(),
                old(interner)@.has_room(nodes@.len()),
                interner@.local.len() <= old(interner)@.local.len() + k,
                (Chain { current, pending, st: self.state(interner@) }) == chained(
                    old(self).state(old(interner)@),
                    nodes@,
                    made(outs@),
                    span,
                    k as nat,
                ),
            decreases nodes@.len() - k,
        {
            proof {
                assert(made(outs@)[k as int].below(old(self).len()));
                assert(made(outs@)[k as int] == outs@[k as int]@);
            }
            if let Out::Pattern(id) = &outs[k] {
                current = Some(*id);
            } else if let CstNode::Token { token, text, span: at } = &nodes[k] {
                if *token == Token::LId {
                    // A step is whole only once it is known whether `?` follows.
                    if let Some((name, step)) = pending {
                        current = Some(self.access(current, name, step, interner));
                    }
                    let name: Symbol = interner.get_or_intern(text.as_str());
                    pending = Some((name, step_span(span, *at)));
                } else if *token == Token::Question {
                    if let Some((name, step)) = pending {
                        let base: NodeId = self.or_hole(current, step, Ghost(interner@));
                        current = Some(
                            self.push(
                                ExprKind::Select(name, base),
                                step_span(span, *at),
                                Ghost(interner@),
                            ),
                        );
                        pending = None;
                    }
                }
            }
            k += 1;
        }
        if let Some((name, step)) = pending {
            current = Some(self.access(current, name, step, interner));
        }
        self.or_hole(current, span, Ghost(interner@))
    }

    /// `pattern 'where' stmt_list`.
    fn query(&mut self, outs: &Vec<Out>, span: Span, Ghost(names): Ghost<Names>) -> (made_query:
        Query)
        requires
            old(self).wf(),
            all_below(made(outs@), old(self).len()),
        ensures
            old(self).grows(*final(self)),
            syntax::query_below(made_query, final(self).len()),
            (made_query, final(self).state(names)) == query(
                old(self).state(names),
                made(outs@),
                span,
            ),
            fits_a_box(last_stmts(made(outs@))),
    {
        proof {
            lemma_picked_below(made(outs@), self.len());
        }
        let ids: Vec<NodeId> = find_patterns(outs);
        let head: Option<NodeId> = if ids.len() > 0 {
            Some(ids[ids.len() - 1])
        } else {
            None
        };
        let head: NodeId = self.or_hole(head, span, Ghost(names));
        let body = seal(find_last_stmts(outs));
        proof {
            lemma_below_later(Made::Stmts(body@), old(self).len(), self.len());
        }
        Query { head, body }
    }

    /// `pattern '=' pattern`.
    fn bind(&mut self, outs: &Vec<Out>, span: Span, Ghost(names): Ghost<Names>) -> (stmt: QueryStmt)
        requires
            old(self).wf(),
            all_below(made(outs@), old(self).len()),
        ensures
            old(self).grows(*final(self)),
            syntax::stmt_below(stmt, final(self).len()),
            (stmt, final(self).state(names)) == bind(old(self).state(names), made(outs@), span),
    {
        proof {
            lemma_picked_below(made(outs@), self.len());
        }
        let ids: Vec<NodeId> = find_patterns(outs);
        if ids.len() >= 2 {
            return QueryStmt::Bind(ids[0], ids[1]);
        }
        let hole: NodeId = self.push(ExprKind::Error, span, Ghost(names));
        if ids.len() == 1 {
            QueryStmt::Bind(ids[0], hole)
        } else {
            QueryStmt::Implicit(hole)
        }
    }

    /// What a rule comes to, its children having come to `outs`.
    fn algebra(
        &mut self,
        rule: Rule,
        span: Span,
        nodes: &Vec<CstNode>,
        outs: &Vec<Out>,
        interner: &mut LocalInterner,
    ) -> (out: Out)
        requires
            old(self).wf(),
            outs@.len() == nodes@.len(),
            all_below(made(outs@), old(self).len()),
            old(interner)@.has_room(1 + nodes@.len()),
        ensures
            old(self).grows(*final(self)),
            out@.below(final(self).len()),
            final(interner)@.local.len() <= old(interner)@.local.len() + 1 + nodes@.len(),
            (out@, final(self).state(final(interner)@)) == ruled(
                old(self).state(old(interner)@),
                *old(self).schema,
                rule,
                span,
                nodes@,
                made(outs@),
            ),
            rule_fits(old(interner)@, rule, made(outs@)),
    {
        proof {
            lemma_picked_below(made(outs@), self.len());
        }
        let ghost names = interner@;
        match rule {
            Rule::Root => match find_query(outs) {
                Some(query) => Out::Query(query),
                None => Out::Nothing,
            },
            Rule::Query => Out::Query(self.query(outs, span, Ghost(names))),
            Rule::StmtList => Out::Stmts(find_stmts(outs)),
            Rule::BindStmt => Out::Stmt(self.bind(outs, span, Ghost(names))),
            Rule::ImplicitBindStmt | Rule::Stmt => Out::Stmt(
                QueryStmt::Implicit(self.one_pattern(outs, span, Ghost(names))),
            ),
            Rule::NegationStmt => Out::Stmt(
                QueryStmt::Negation(self.one_pattern(outs, span, Ghost(names))),
            ),
            Rule::Pattern | Rule::Branch | Rule::Fact | Rule::ParenPrimary | Rule::Primary => {
                Out::Pattern(self.one_pattern(outs, span, Ghost(names)))
            },
            Rule::Disjunction => {
                let branches = seal(find_patterns(outs));
                Out::Pattern(self.push(ExprKind::Disjunction(branches), span, Ghost(names)))
            },
            Rule::WildcardPrimary => Out::Pattern(
                self.push(ExprKind::Wildcard, span, Ghost(names)),
            ),
            Rule::NeverPrimary => Out::Pattern(self.push(ExprKind::Never, span, Ghost(names))),
            Rule::VarPrimary => match token_text(nodes, Token::UId) {
                Some(text) => {
                    let symbol: Symbol = interner.get_or_intern(text);
                    Out::Pattern(self.push(ExprKind::Var(symbol), span, Ghost(interner@)))
                },
                None => Out::Pattern(self.push(ExprKind::Error, span, Ghost(names))),
            },
            Rule::NatPrimary => Out::Pattern(self.int_literal(nodes, span, false, Ghost(names))),
            Rule::IntPrimary => Out::Pattern(self.int_literal(nodes, span, true, Ghost(names))),
            Rule::StringPrimary => Out::Pattern(
                self.string_literal(nodes, span, false, interner),
            ),
            Rule::StringPrefixPrimary => Out::Pattern(
                self.string_literal(nodes, span, true, interner),
            ),
            Rule::AnonRecordPrimary => Out::Pattern(
                self.record(find_first_fields(outs), span, interner),
            ),
            Rule::FieldList => Out::Fields(find_fields(outs)),
            Rule::Field => {
                let name: Symbol = interner.get_or_intern(token_text_or_empty(nodes, Token::LId));
                let value: NodeId = self.one_pattern(outs, span, Ghost(interner@));
                Out::Field(Field { name, value, span })
            },
            Rule::FactPattern => Out::Pattern(self.fact(nodes, outs, span, Ghost(names))),
            Rule::AccessPattern => Out::Pattern(self.access_chain(nodes, outs, span, interner)),
            Rule::SubqueryPrimary => {
                let query: Query = self.query(outs, span, Ghost(names));
                Out::Pattern(self.push(ExprKind::Subquery(query), span, Ghost(names)))
            },
            Rule::Error => Out::Nothing,
        }
    }

    /// What a node comes to: its children first, in order, and then its own rule.
    fn lower_node(&mut self, node: &CstNode, interner: &mut LocalInterner) -> (out: Out)
        requires
            old(self).wf(),
            old(interner)@.has_room(names_in(*node)),
        ensures
            old(self).grows(*final(self)),
            out@.below(final(self).len()),
            final(interner)@.local.len() <= old(interner)@.local.len() + names_in(*node),
            (out@, final(self).state(final(interner)@)) == lowered(
                old(self).state(old(interner)@),
                *old(self).schema,
                *node,
            ),
            fits(old(self).state(old(interner)@), *old(self).schema, *node),
        decreases node,
    {
        match node {
            CstNode::Token { .. } => Out::Nothing,
            CstNode::Rule { rule, span, children } => {
                let mut outs: Vec<Out> = Vec::new();
                let mut k: usize = 0;
                proof {
                    assert(made(outs@) =~= Seq::<Made>::empty());
                }
                while k < children.len()
                    invariant
                        old(self).grows(*self),
                        *node == (CstNode::Rule { rule: *rule, span: *span, children: *children }),
                        k <= children@.len(),
                        outs@.len() == k,
                        all_below(made(outs@), self.len()),
                        old(interner)@.has_room(names_in(*node)),
                        interner@.local.len() <= old(interner)@.local.len() + names_under(
                            *node,
                            k as nat,
                        ),
                        (made(outs@), self.state(interner@)) == lowered_children(
                            old(self).state(old(interner)@),
                            *old(self).schema,
                            *node,
                            k as nat,
                        ),
                        fits_under(
                            old(self).state(old(interner)@),
                            *old(self).schema,
                            *node,
                            k as nat,
                        ),
                    decreases children@.len() - k,
                {
                    proof {
                        lemma_names_under(*node, (k + 1) as nat, children@.len());
                    }
                    let ghost before = made(outs@);
                    let ghost n = self.len();
                    let out = self.lower_node(&children[k], interner);
                    outs.push(out);
                    proof {
                        assert(made(outs@) =~= before.push(out@));
                        assert forall|i: int| 0 <= i < made(outs@).len() implies (
                        #[trigger] made(outs@)[i]).below(self.len()) by {
                            if i < k {
                                assert(before[i].below(n));
                                lemma_below_later(before[i], n, self.len());
                            }
                        }
                    }
                    k += 1;
                }
                self.algebra(*rule, *span, children, &outs, interner)
            },
        }
    }
}

/// Lower a parse into the typed store, and report what it names or denotes wrongly.
pub fn lower(root: &CstNode, schema: &Schema, interner: &mut LocalInterner) -> (made: (
    Ast,
    Diagnostics,
))
    requires
        schema.wf(),
        old(interner)@.has_room(names_in(*root)),
    ensures
        made.0.wf(),
        ({
            let (query, st) = lowered_query(old(interner)@, *schema, *root);
            &&& made.0.root() == query
            &&& made.0.tree().kinds() == st.kinds
            &&& made.0.tree().spans() == st.spans
            &&& made.1@ == st.reports
            &&& final(interner)@ == st.names
        }),
        query_fits(old(interner)@, *schema, *root),
        made.0.tree().kinds().len() <= usize::MAX,
        final(interner)@.local.len() <= old(interner)@.local.len() + names_in(*root),
{
    let mut lowering = Lowering {
        store: SyntaxTree::new(),
        schema,
        diagnostics: Diagnostics::new(),
    };
    let query = match lowering.lower_node(root, interner) {
        Out::Query(query) => query,
        _ => {
            let head: NodeId = lowering.push(ExprKind::Error, root.span(), Ghost(interner@));
            Query { head, body: seal(Vec::new()) }
        },
    };
    proof {
        lowering.store.lemma_bounded();
    }
    (Ast::new(query, lowering.store), lowering.diagnostics)
}

// ---- laws -------------------------------------------------------------------

/// No field's name comes before an earlier one's.
pub open spec fn in_order(fields: Seq<Field>, names: Names) -> bool {
    forall|i: int, j: int|
        #![trigger fields[i], fields[j]]
        0 <= i < j < fields.len() ==> !text::before(
            name_text(names, fields[j].name),
            name_text(names, fields[i].name),
        )
}

proof fn lemma_inserted_in_order(sorted: Seq<Field>, field: Field, names: Names)
    requires
        in_order(sorted, names),
    ensures
        in_order(inserted(sorted, field, names), names),
        inserted(sorted, field, names).len() == sorted.len() + 1,
        forall|i: int|
            0 <= i < inserted(sorted, field, names).len() ==> (#[trigger] inserted(
                sorted,
                field,
                names,
            )[i]) == field || sorted.contains(inserted(sorted, field, names)[i]),
        inserted(sorted, field, names).contains(field),
        forall|i: int|
            0 <= i < sorted.len() ==> inserted(sorted, field, names).contains(
                #[trigger] sorted[i],
            ),
    decreases sorted.len(),
{
    let all = inserted(sorted, field, names);
    let mine = name_text(names, field.name);
    if sorted.len() == 0 || !text::before(mine, name_text(names, sorted.last().name)) {
        assert(all == sorted.push(field));
        assert forall|i: int, j: int|
            #![trigger all[i], all[j]]
            0 <= i < j < all.len() implies !text::before(
            name_text(names, all[j].name),
            name_text(names, all[i].name),
        ) by {
            if j == sorted.len() && i < sorted.len() - 1 {
                lemma_not_before(
                    name_text(names, sorted[i].name),
                    name_text(names, sorted[sorted.len() - 1].name),
                    mine,
                );
            }
        }
        assert forall|i: int| 0 <= i < sorted.len() implies all.contains(#[trigger] sorted[i]) by {
            assert(all[i] == sorted[i]);
        }
        assert forall|i: int| 0 <= i < all.len() implies (#[trigger] all[i]) == field
            || sorted.contains(all[i]) by {
            if i < sorted.len() {
                assert(all[i] == sorted[i]);
            }
        }
        assert(all[sorted.len() as int] == field);
    } else {
        let shorter = sorted.drop_last();
        let last = sorted.last();
        assert forall|i: int, j: int|
            #![trigger shorter[i], shorter[j]]
            0 <= i < j < shorter.len() implies !text::before(
            name_text(names, shorter[j].name),
            name_text(names, shorter[i].name),
        ) by {
            assert(shorter[i] == sorted[i] && shorter[j] == sorted[j]);
        }
        lemma_inserted_in_order(shorter, field, names);
        let inner = inserted(shorter, field, names);
        assert(all == inner.push(last));
        assert forall|i: int| 0 <= i < all.len() implies (#[trigger] all[i]) == field
            || sorted.contains(all[i]) by {
            if i < inner.len() {
                assert(all[i] == inner[i]);
                if inner[i] != field {
                    let j = choose|j: int| 0 <= j < shorter.len() && shorter[j] == inner[i];
                    assert(sorted[j] == all[i]);
                }
            } else {
                assert(all[i] == sorted[sorted.len() - 1]);
            }
        }
        assert forall|i: int, j: int|
            #![trigger all[i], all[j]]
            0 <= i < j < all.len() implies !text::before(
            name_text(names, all[j].name),
            name_text(names, all[i].name),
        ) by {
            assert(all[i] == inner[i]);
            if j < inner.len() {
                assert(all[j] == inner[j]);
            } else {
                assert(all[j] == last);
                if inner[i] == field {
                    crate::bytes::lemma_lex_asymmetric(
                        encode_utf8(mine),
                        encode_utf8(name_text(names, last.name)),
                    );
                } else {
                    let n = choose|n: int| 0 <= n < shorter.len() && shorter[n] == inner[i];
                    assert(sorted[n] == inner[i]);
                    assert(sorted[sorted.len() - 1] == last);
                }
            }
        }
        assert forall|i: int| 0 <= i < sorted.len() implies all.contains(#[trigger] sorted[i]) by {
            if i < shorter.len() {
                assert(shorter[i] == sorted[i]);
                let n = choose|n: int| 0 <= n < inner.len() && inner[n] == shorter[i];
                assert(all[n] == sorted[i]);
            } else {
                assert(all[inner.len() as int] == sorted[i]);
            }
        }
        let n = choose|n: int| 0 <= n < inner.len() && inner[n] == field;
        assert(all[n] == field);
    }
}

/// Not coming before is transitive.
proof fn lemma_not_before(a: Seq<char>, b: Seq<char>, c: Seq<char>)
    requires
        !text::before(b, a),
        !text::before(c, b),
    ensures
        !text::before(c, a),
{
    let (x, y, z) = (encode_utf8(a), encode_utf8(b), encode_utf8(c));
    if text::before(c, a) {
        crate::bytes::lemma_lex_total(x, y);
        crate::bytes::lemma_lex_total(y, z);
        if x == y {
        } else {
            crate::bytes::lemma_lex_transitive(z, x, y);
        }
    }
}

proof fn lemma_by_name(fields: Seq<Field>, names: Names)
    ensures
        in_order(by_name(fields, names), names),
        by_name(fields, names).len() == fields.len(),
        forall|i: int|
            0 <= i < by_name(fields, names).len() ==> fields.contains(
                #[trigger] by_name(fields, names)[i],
            ),
        forall|i: int|
            0 <= i < fields.len() ==> by_name(fields, names).contains(#[trigger] fields[i]),
    decreases fields.len(),
{
    if fields.len() > 0 {
        let before = by_name(fields.drop_last(), names);
        let all = by_name(fields, names);
        lemma_by_name(fields.drop_last(), names);
        lemma_inserted_in_order(before, fields.last(), names);
        assert forall|i: int| 0 <= i < all.len() implies fields.contains(#[trigger] all[i]) by {
            if all[i] == fields.last() {
                assert(fields[fields.len() - 1] == all[i]);
            } else {
                let n = choose|n: int| 0 <= n < before.len() && before[n] == all[i];
                assert(fields.drop_last().contains(before[n]));
                let m = choose|m: int|
                    0 <= m < fields.drop_last().len() && fields.drop_last()[m] == before[n];
                assert(fields[m] == all[i]);
            }
        }
        assert forall|i: int| 0 <= i < fields.len() implies all.contains(#[trigger] fields[i]) by {
            if i < fields.len() - 1 {
                assert(fields.drop_last()[i] == fields[i]);
                let n = choose|n: int| 0 <= n < before.len() && before[n] == fields[i];
                assert(all.contains(before[n]));
            }
        }
    }
}

/// A name whose symbol is the one its text has.
pub open spec fn canonical(names: Names, symbol: Symbol) -> bool {
    names.text(symbol) matches Some(text) && names.symbol(text) == Some(symbol)
}

/// Of fields in order, the ones kept are strictly in order, one of every name.
proof fn lemma_kept(fields: Seq<Field>, names: Names)
    requires
        in_order(fields, names),
        forall|i: int| 0 <= i < fields.len() ==> canonical(names, (#[trigger] fields[i]).name),
    ensures
        ({
            let some = kept(fields);
            &&& some.len() + repeated(fields).len() == fields.len()
            &&& fields.len() > 0 ==> some.len() > 0 && some.last().name == fields.last().name
            &&& forall|i: int|
                0 <= i < some.len() ==> canonical(names, (#[trigger] some[i]).name)
            &&& forall|i: int, j: int|
                #![trigger some[i], some[j]]
                0 <= i < j < some.len() ==> text::before(
                    name_text(names, some[i].name),
                    name_text(names, some[j].name),
                )
            &&& forall|i: int|
                0 <= i < fields.len() ==> exists|j: int|
                    0 <= j < some.len() && (#[trigger] some[j]).name == (
                    #[trigger] fields[i]).name
        }),
    decreases fields.len(),
{
    if fields.len() > 0 {
        let shorter = fields.drop_last();
        assert forall|i: int| 0 <= i < shorter.len() implies canonical(
            names,
            (#[trigger] shorter[i]).name,
        ) by {
            assert(shorter[i] == fields[i]);
        }
        assert forall|i: int, j: int|
            #![trigger shorter[i], shorter[j]]
            0 <= i < j < shorter.len() implies !text::before(
            name_text(names, shorter[j].name),
            name_text(names, shorter[i].name),
        ) by {
            assert(shorter[i] == fields[i] && shorter[j] == fields[j]);
        }
        lemma_kept(shorter, names);
        let before = kept(shorter);
        let some = kept(fields);
        let field = fields[fields.len() - 1];
        assert(canonical(names, field.name));
        if before.len() > 0 && before.last().name == field.name {
            assert(some == before);
        } else {
            assert(some == before.push(field));
            if before.len() > 0 {
                let last = before[before.len() - 1];
                assert(canonical(names, last.name));
                let (a, b) = (name_text(names, last.name), name_text(names, field.name));
                assert(fields[shorter.len() - 1].name == last.name);
                assert(!text::before(b, a));
                encode_utf8_decode_utf8(a);
                encode_utf8_decode_utf8(b);
                crate::bytes::lemma_lex_total(encode_utf8(a), encode_utf8(b));
                assert(text::before(a, b));
                assert forall|i: int, j: int|
                    #![trigger some[i], some[j]]
                    0 <= i < j < some.len() implies text::before(
                    name_text(names, some[i].name),
                    name_text(names, some[j].name),
                ) by {
                    assert(some[i] == before[i]);
                    if j < before.len() {
                        assert(some[j] == before[j]);
                    } else if i < before.len() - 1 {
                        crate::bytes::lemma_lex_transitive(
                            encode_utf8(name_text(names, before[i].name)),
                            encode_utf8(a),
                            encode_utf8(b),
                        );
                    }
                }
            }
            assert forall|i: int| 0 <= i < some.len() implies canonical(
                names,
                (#[trigger] some[i]).name,
            ) by {
                if i < before.len() {
                    assert(some[i] == before[i]);
                }
            }
        }
        assert forall|i: int| 0 <= i < fields.len() implies exists|j: int|
            0 <= j < some.len() && (#[trigger] some[j]).name == (#[trigger] fields[i]).name by {
            if i < shorter.len() {
                assert(shorter[i] == fields[i]);
                let j = choose|j: int|
                    0 <= j < before.len() && (#[trigger] before[j]).name == shorter[i].name;
                assert(some[j].name == fields[i].name);
            } else {
                assert(some[some.len() - 1].name == field.name);
            }
        }
    }
}

/// The fields of a record are a sorted set: strictly in the order of their names, every
/// name that was written once, and as many reported as were written again.
pub proof fn law_record_fields_are_a_sorted_set(written: Seq<Field>, names: Names)
    requires
        forall|i: int| 0 <= i < written.len() ==> canonical(names, (#[trigger] written[i]).name),
    ensures
        ({
            let some = kept(by_name(written, names));
            &&& forall|i: int, j: int|
                #![trigger some[i], some[j]]
                0 <= i < j < some.len() ==> text::before(
                    name_text(names, some[i].name),
                    name_text(names, some[j].name),
                )
            &&& forall|i: int|
                0 <= i < written.len() ==> exists|j: int|
                    0 <= j < some.len() && (#[trigger] some[j]).name == (
                    #[trigger] written[i]).name
            &&& some.len() + repeated(by_name(written, names)).len() == written.len()
        }),
{
    let sorted = by_name(written, names);
    let some = kept(sorted);
    lemma_by_name(written, names);
    assert forall|i: int| 0 <= i < sorted.len() implies canonical(
        names,
        (#[trigger] sorted[i]).name,
    ) by {
        assert(written.contains(sorted[i]));
        let n = choose|n: int| 0 <= n < written.len() && written[n] == sorted[i];
        assert(canonical(names, written[n].name));
    }
    lemma_kept(sorted, names);
    assert forall|i: int| 0 <= i < written.len() implies exists|j: int|
        0 <= j < some.len() && (#[trigger] some[j]).name == (#[trigger] written[i]).name by {
        assert(sorted.contains(written[i]));
        let n = choose|n: int| 0 <= n < sorted.len() && sorted[n] == written[i];
        let j = choose|j: int| 0 <= j < some.len() && (#[trigger] some[j]).name == sorted[n].name;
        assert(some[j].name == written[i].name);
    }
}

} // verus!
