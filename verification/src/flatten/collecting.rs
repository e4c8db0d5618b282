//! What collecting a query means: its statements, what each of them can bind and has
//! to read, and what is reported before any order is chosen.
use vstd::prelude::*;

use super::model;
use super::model::{
    Alias, Alt, Constraint, Cx, Gen, Slot, St, Stmt, HOISTED, SAY_ALREADY, SAY_ALREADY_IS,
    SAY_BRANCH, SAY_NEGATED_INSIDE, SAY_NEGATED_NEST, SAY_NEGATED_SUBQUERY, SAY_NOTHING_BINDS,
    SAY_NOT_PROJECTABLE, SAY_NO_GENERATOR, SAY_SHADOWS, SAY_SHADOWS_OUTER, SAY_VALUE_BIND,
    SAY_VALUE_MATCH_ROW, SAY_WILDCARD_MEANT,
};
use crate::boxed;
use crate::diag::{Code, Report};
use crate::reorder::{Placement, StmtDeps};
use crate::schema::{NameKey, PredicateTy, Symbol};
use crate::syntax::{ExprKind, FieldRef, NodeId, NodeSpan, QueryStmt};
use crate::text;

verus! {

// ---- size -------------------------------------------------------------------

/// How many nodes a pattern is made of, counting a node once for every way to reach
/// it. It bounds how many names hoisting can invent.
pub open spec fn weight(cx: Cx, node: NodeId) -> nat
    decreases node.0, 2nat, 0nat,
{
    1 + (match cx.ast.kind(node) {
        ExprKind::Record(fields) => weight_fields(cx, node, fields@, fields@.len()),
        ExprKind::Access(_, base) => if base.0 < node.0 {
            weight(cx, base)
        } else {
            0
        },
        ExprKind::Select(_, base) => if base.0 < node.0 {
            weight(cx, base)
        } else {
            0
        },
        ExprKind::Fact(_, key) => if key.0 < node.0 {
            weight(cx, key)
        } else {
            0
        },
        ExprKind::Disjunction(branches) => weight_nodes(cx, node, branches@, branches@.len()),
        ExprKind::Subquery(query) => weight_stmts(cx, node, query.body@, query.body@.len()),
        _ => 0,
    })
}

/// The first `k` fields.
pub open spec fn weight_fields(
    cx: Cx,
    node: NodeId,
    fields: Seq<(Symbol, NodeId)>,
    k: nat,
) -> nat
    decreases node.0, 0nat, k,
{
    if k == 0 {
        0
    } else {
        weight_fields(cx, node, fields, (k - 1) as nat) + (if fields[k - 1].1.0 < node.0 {
            weight(cx, fields[k - 1].1)
        } else {
            0
        })
    }
}

/// The first `k` branches.
pub open spec fn weight_nodes(cx: Cx, node: NodeId, nodes: Seq<NodeId>, k: nat) -> nat
    decreases node.0, 0nat, k,
{
    if k == 0 {
        0
    } else {
        weight_nodes(cx, node, nodes, (k - 1) as nat) + (if nodes[k - 1].0 < node.0 {
            weight(cx, nodes[k - 1])
        } else {
            0
        })
    }
}

/// The first `k` statements of a subquery.
pub open spec fn weight_stmts(cx: Cx, node: NodeId, body: Seq<QueryStmt>, k: nat) -> nat
    decreases node.0, 1nat, k,
{
    if k == 0 {
        0
    } else {
        weight_stmts(cx, node, body, (k - 1) as nat) + (match body[k - 1] {
            QueryStmt::Implicit(id) => if id.0 < node.0 {
                weight(cx, id)
            } else {
                0
            },
            QueryStmt::Bind(_, rhs) => if rhs.0 < node.0 {
                weight(cx, rhs)
            } else {
                0
            },
            QueryStmt::Negation(_) => 0,
        })
    }
}

/// How many names flattening the first `k` statements of a query can invent.
pub open spec fn body_weight(cx: Cx, body: Seq<QueryStmt>, k: nat) -> nat
    decreases k,
{
    if k == 0 {
        0
    } else {
        body_weight(cx, body, (k - 1) as nat) + (match body[k - 1] {
            QueryStmt::Implicit(id) => weight(cx, id),
            QueryStmt::Bind(_, rhs) => weight(cx, rhs),
            QueryStmt::Negation(_) => 0,
        })
    }
}

/// How many names flattening the query can invent.
pub open spec fn query_weight(cx: Cx) -> nat {
    body_weight(cx, cx.ast.root().body@, cx.ast.root().body@.len()) + weight(
        cx,
        cx.ast.root().head,
    )
}

/// The names the keys of some alternatives can invent.
pub open spec fn alts_weight(cx: Cx, alts: Seq<Alt>, k: nat) -> nat
    decreases k,
{
    if k == 0 {
        0
    } else {
        alts_weight(cx, alts, (k - 1) as nat) + weight(cx, alts[k - 1].key)
    }
}

// ---- generators -------------------------------------------------------------

/// The slice made of these alternatives holds them.
pub open spec fn alts_sealed(alts: Seq<Alt>) -> bool {
    boxed::boxed(alts)@ == alts
}

/// A written generator of these alternatives.
pub open spec fn written(cx: Cx, node: NodeId, alts: Seq<Alt>, row: Option<Symbol>) -> Gen {
    Gen {
        alternatives: boxed::boxed(alts),
        row,
        span: cx.ast.span(node),
        placement: Placement::Written,
    }
}

/// One statement as a generator, or a report that it is not one.
pub open spec fn generator(cx: Cx, st: St, node: NodeId, row: Option<Symbol>) -> (
    St,
    Option<Gen>,
) {
    match cx.ast.kind(node) {
        ExprKind::Fact(predicate, key) => (
            st.sealing(alts_sealed(seq![Alt { predicate, key }])),
            Some(written(cx, node, seq![Alt { predicate, key }], row)),
        ),
        ExprKind::Never => (
            st.sealing(alts_sealed(Seq::empty())),
            Some(written(cx, node, Seq::empty(), row)),
        ),
        ExprKind::Disjunction(branches) => {
            let (after, alts) = branches_of(cx, st, branches@, branches@.len());
            match alts {
                Some(found) => (
                    after.sealing(alts_sealed(found)),
                    Some(written(cx, node, found, row)),
                ),
                None => (after, None),
            }
        },
        _ => (model::report(cx, st, node, Code::RejectNotAGenerator, SAY_NO_GENERATOR@), None),
    }
}

/// The alternatives of the first `k` branches: one per fact pattern, none for `never`.
/// Anything else is reported, and ends it.
pub open spec fn branches_of(cx: Cx, st: St, branches: Seq<NodeId>, k: nat) -> (
    St,
    Option<Seq<Alt>>,
)
    decreases k,
{
    if k == 0 {
        (st, Some(Seq::empty()))
    } else {
        let (s1, before) = branches_of(cx, st, branches, (k - 1) as nat);
        match before {
            None => (s1, None),
            Some(alts) => match cx.ast.kind(branches[k - 1]) {
                ExprKind::Fact(predicate, key) => (s1, Some(alts.push(Alt { predicate, key }))),
                ExprKind::Never => (s1, Some(alts)),
                _ => (
                    model::report(cx, s1, branches[k - 1], Code::NyiDisjunction, SAY_BRANCH@),
                    None,
                ),
            },
        }
    }
}

/// The first alternative, from `i` on, whose key has a fact pattern inside it.
pub open spec fn nesting_alt(cx: Cx, alts: Seq<Alt>, i: nat) -> Option<NodeId>
    decreases alts.len() - i,
{
    if i >= alts.len() {
        None
    } else if model::nests_a_generator(cx, alts[i as int].key) {
        Some(alts[i as int].key)
    } else {
        nesting_alt(cx, alts, i + 1)
    }
}

/// The generator a negation tests for emptiness, or the reason there is none.
pub open spec fn negated(cx: Cx, st: St, node: NodeId) -> (St, Option<Gen>) {
    if cx.ast.kind(node) is Subquery {
        (model::report(cx, st, node, Code::NyiNegation, SAY_NEGATED_SUBQUERY@), None)
    } else {
        let (s1, found) = generator(cx, st, node, None);
        match found {
            None => (s1, None),
            Some(tested) => match nesting_alt(cx, tested.alternatives@, 0) {
                Some(key) => (
                    model::report(cx, s1, key, Code::NyiNegation, SAY_NEGATED_NEST@),
                    None,
                ),
                None => (s1, Some(tested)),
            },
        }
    }
}

// ---- hoisting ---------------------------------------------------------------

/// Hoist every fact pattern inside a node into a generator of its own.
pub open spec fn hoist_within(cx: Cx, st: St, stmts: Seq<Stmt>, node: NodeId) -> (St, Seq<Stmt>)
    decreases node.0, 1nat, 0nat,
{
    match cx.ast.kind(node) {
        ExprKind::Record(fields) => hoist_fields(cx, st, stmts, node, fields@, fields@.len()),
        ExprKind::Access(_, base) => if base.0 < node.0 {
            hoist_node(cx, st, stmts, base)
        } else {
            (st, stmts)
        },
        ExprKind::Select(_, base) => if base.0 < node.0 {
            hoist_node(cx, st, stmts, base)
        } else {
            (st, stmts)
        },
        _ => (st, stmts),
    }
}

/// The first `k` fields.
pub open spec fn hoist_fields(
    cx: Cx,
    st: St,
    stmts: Seq<Stmt>,
    node: NodeId,
    fields: Seq<(Symbol, NodeId)>,
    k: nat,
) -> (St, Seq<Stmt>)
    decreases node.0, 0nat, k,
{
    if k == 0 {
        (st, stmts)
    } else {
        let (s1, q1) = hoist_fields(cx, st, stmts, node, fields, (k - 1) as nat);
        if fields[k - 1].1.0 < node.0 {
            hoist_node(cx, s1, q1, fields[k - 1].1)
        } else {
            (s1, q1)
        }
    }
}

/// The name of the row hoisted when there are `n` statements.
pub open spec fn hoisted_name(n: nat) -> Seq<char> {
    HOISTED@ + text::decimal(n)
}

/// The same, and the node itself if it is a generator: what is nested inside it comes
/// first, since its key reads what that binds.
pub open spec fn hoist_node(cx: Cx, st: St, stmts: Seq<Stmt>, node: NodeId) -> (St, Seq<Stmt>)
    decreases node.0, 2nat, 0nat,
{
    match cx.ast.kind(node) {
        ExprKind::Fact(predicate, key) => if key.0 < node.0 {
            let (s1, q1) = hoist_within(cx, st, stmts, key);
            let name = hoisted_name(q1.len());
            let row = s1.names.interned(name);
            (
                St {
                    names: s1.names.with(name),
                    hoisted: s1.hoisted.push((node, row)),
                    ..s1.sealing(alts_sealed(seq![Alt { predicate, key }]))
                },
                q1.push(
                    Stmt::Scan(
                        Gen {
                            alternatives: boxed::boxed(seq![Alt { predicate, key }]),
                            row: Some(row),
                            span: cx.ast.span(node),
                            placement: Placement::Floating,
                        },
                    ),
                ),
            )
        } else {
            (st, stmts)
        },
        _ => hoist_within(cx, st, stmts, node),
    }
}

/// The keys of the first `k` alternatives.
pub open spec fn hoist_alts(cx: Cx, st: St, stmts: Seq<Stmt>, alts: Seq<Alt>, k: nat) -> (
    St,
    Seq<Stmt>,
)
    decreases k,
{
    if k == 0 {
        (st, stmts)
    } else {
        let (s1, q1) = hoist_alts(cx, st, stmts, alts, (k - 1) as nat);
        hoist_within(cx, s1, q1, alts[k - 1].key)
    }
}

/// A generator's own statement, after those its keys need.
pub open spec fn scanned(cx: Cx, st: St, stmts: Seq<Stmt>, node: NodeId, row: Option<Symbol>) -> (
    St,
    Seq<Stmt>,
) {
    let (s1, found) = generator(cx, st, node, row);
    match found {
        Some(scan) => {
            let (s2, q2) = hoist_alts(
                cx,
                s1,
                stmts,
                scan.alternatives@,
                scan.alternatives@.len(),
            );
            (s2, q2.push(Stmt::Scan(scan)))
        },
        None => (s1, stmts),
    }
}

// ---- subqueries -------------------------------------------------------------

/// What the fact patterns among the first `k` statements can capture.
pub open spec fn implicit_captures(cx: Cx, body: Seq<QueryStmt>, k: nat) -> Seq<Symbol>
    decreases k,
{
    if k == 0 {
        Seq::empty()
    } else {
        implicit_captures(cx, body, (k - 1) as nat) + captures_of(cx, body[k - 1])
    }
}

/// What a statement that is a fact pattern can capture.
pub open spec fn captures_of(cx: Cx, stmt: QueryStmt) -> Seq<Symbol> {
    match stmt {
        QueryStmt::Implicit(node) => match cx.ast.kind(node) {
            ExprKind::Fact(_, key) => model::bare_variables(cx, key),
            _ => Seq::empty(),
        },
        _ => Seq::empty(),
    }
}

/// Whether the first `k` statements bind something to node `at`.
pub open spec fn bound_to(body: Seq<QueryStmt>, at: NodeId, k: nat) -> bool
    decreases k,
{
    k > 0 && ((body[k - 1] matches QueryStmt::Bind(_, rhs) && rhs == at) || bound_to(
        body,
        at,
        (k - 1) as nat,
    ))
}

/// What the fact patterns after the statement that binds `at` can capture, among the
/// first `k`.
pub open spec fn captures_after(cx: Cx, body: Seq<QueryStmt>, at: NodeId, k: nat) -> Seq<Symbol>
    decreases k,
{
    if k == 0 {
        Seq::empty()
    } else if bound_to(body, at, (k - 1) as nat) {
        captures_after(cx, body, at, (k - 1) as nat) + captures_of(cx, body[k - 1])
    } else {
        captures_after(cx, body, at, (k - 1) as nat)
    }
}

/// The first of `inner`, from `i` on, that is among `outer`.
pub open spec fn first_shared(inner: Seq<Symbol>, outer: Seq<Symbol>, i: nat) -> Option<Symbol>
    decreases inner.len() - i,
{
    if i >= inner.len() {
        None
    } else if outer.contains(inner[i as int]) {
        Some(inner[i as int])
    } else {
        first_shared(inner, outer, i + 1)
    }
}

/// The name a subquery binds fresh that some later statement also binds.
pub open spec fn shadowed(cx: Cx, body: Seq<QueryStmt>, at: NodeId) -> Option<Symbol> {
    let outer = cx.ast.root().body@;
    first_shared(
        implicit_captures(cx, body, body.len()),
        captures_after(cx, outer, at, outer.len()),
        0,
    )
}

/// Inline the first `k` statements of a subquery.
pub open spec fn inlined(cx: Cx, st: St, stmts: Seq<Stmt>, body: Seq<QueryStmt>, k: nat) -> (
    St,
    Seq<Stmt>,
)
    decreases k,
{
    if k == 0 {
        (st, stmts)
    } else {
        let (s1, q1) = inlined(cx, st, stmts, body, (k - 1) as nat);
        match body[k - 1] {
            QueryStmt::Implicit(node) => scanned(cx, s1, q1, node, None),
            QueryStmt::Bind(lhs, rhs) => {
                let (s2, q2) = hoist_within(cx, s1, q1, rhs);
                (
                    s2,
                    q2.push(
                        Stmt::Alias(Alias { pattern: lhs, value: rhs, span: cx.ast.span(rhs) }),
                    ),
                )
            },
            QueryStmt::Negation(node) => (
                model::report(cx, s1, node, Code::NyiNegation, SAY_NEGATED_INSIDE@),
                q1,
            ),
        }
    }
}

// ---- statements -------------------------------------------------------------

/// One statement of the query's body.
pub open spec fn collected_stmt(cx: Cx, st: St, stmts: Seq<Stmt>, stmt: QueryStmt) -> (
    St,
    Seq<Stmt>,
) {
    match stmt {
        QueryStmt::Implicit(node) => scanned(cx, st, stmts, node, None),
        QueryStmt::Bind(lhs, rhs) => match cx.ast.kind(rhs) {
            ExprKind::Subquery(query) => match shadowed(cx, query.body@, rhs) {
                Some(name) => (
                    model::report(
                        cx,
                        st,
                        rhs,
                        Code::NyiSubquery,
                        SAY_SHADOWS@ + st.names.shown(name) + SAY_SHADOWS_OUTER@,
                    ),
                    stmts,
                ),
                None => {
                    let (s1, q1) = inlined(cx, st, stmts, query.body@, query.body@.len());
                    (
                        s1,
                        q1.push(
                            Stmt::Alias(
                                Alias {
                                    pattern: lhs,
                                    value: query.head,
                                    span: cx.ast.span(rhs),
                                },
                            ),
                        ),
                    )
                },
            },
            kind => if kind is Fact || kind is Disjunction || kind is Never {
                let row = match cx.ast.kind(lhs) {
                    ExprKind::Var(symbol) => Some(symbol),
                    _ => None,
                };
                scanned(cx, st, stmts, rhs, row)
            } else if cx.ast.constant(rhs) {
                (model::bind_pattern(cx, st, lhs, Slot::Const(rhs)), stmts)
            } else if kind is Prefix {
                (
                    match cx.ast.kind(lhs) {
                        ExprKind::Var(symbol) => St {
                            constraints: st.constraints.push((symbol, rhs)),
                            ..st
                        },
                        _ => st,
                    },
                    stmts.push(
                        Stmt::Constrain(Constraint { var: lhs, span: cx.ast.span(rhs) }),
                    ),
                )
            } else if model::names_a_location(cx, rhs) {
                let (s1, q1) = hoist_within(cx, st, stmts, rhs);
                (
                    s1,
                    q1.push(
                        Stmt::Alias(Alias { pattern: lhs, value: rhs, span: cx.ast.span(rhs) }),
                    ),
                )
            } else {
                (model::report(cx, st, rhs, Code::NyiValueBind, SAY_VALUE_BIND@), stmts)
            },
        },
        QueryStmt::Negation(node) => {
            let (s1, found) = negated(cx, st, node);
            match found {
                Some(tested) => (s1, stmts.push(Stmt::Negate(tested))),
                None => (s1, stmts),
            }
        },
    }
}

/// The first `k` statements of the query's body.
pub open spec fn collected_body(cx: Cx, st: St, body: Seq<QueryStmt>, k: nat) -> (St, Seq<Stmt>)
    decreases k,
{
    if k == 0 {
        (st, Seq::empty())
    } else {
        let (s1, q1) = collected_body(cx, st, body, (k - 1) as nat);
        collected_stmt(cx, s1, q1, body[k - 1])
    }
}

// ---- which side defines the other -------------------------------------------

/// What the keys of the first `k` alternatives can capture.
pub open spec fn alts_captures(cx: Cx, alts: Seq<Alt>, k: nat) -> Seq<Symbol>
    decreases k,
{
    if k == 0 {
        Seq::empty()
    } else {
        alts_captures(cx, alts, (k - 1) as nat) + model::bare_variables(cx, alts[k - 1].key)
    }
}

/// Every variable the first `k` statements can bind: a row, or a key's variable.
pub open spec fn bindable(cx: Cx, stmts: Seq<Stmt>, k: nat) -> Seq<Symbol>
    decreases k,
{
    if k == 0 {
        Seq::empty()
    } else {
        bindable(cx, stmts, (k - 1) as nat) + (match stmts[k - 1] {
            Stmt::Scan(scan) => (match scan.row {
                Some(row) => seq![row],
                None => Seq::empty(),
            }) + alts_captures(cx, scan.alternatives@, scan.alternatives@.len()),
            _ => Seq::empty(),
        })
    }
}

/// Whether a node is a variable among `vars`.
pub open spec fn is_one_of(cx: Cx, node: NodeId, vars: Seq<Symbol>) -> bool {
    cx.ast.kind(node) matches ExprKind::Var(symbol) && vars.contains(symbol)
}

/// A statement with the bound side of `X = Y` as the one the value comes from.
pub open spec fn oriented(cx: Cx, bound: Seq<Symbol>, stmt: Stmt) -> Stmt {
    match stmt {
        Stmt::Alias(alias) => if cx.ast.kind(alias.value) is Var && is_one_of(
            cx,
            alias.pattern,
            bound,
        ) && !is_one_of(cx, alias.value, bound) {
            Stmt::Alias(Alias { pattern: alias.value, value: alias.pattern, span: alias.span })
        } else {
            stmt
        },
        _ => stmt,
    }
}

/// Every statement, oriented.
pub open spec fn all_oriented(cx: Cx, stmts: Seq<Stmt>) -> Seq<Stmt> {
    let bound = bindable(cx, stmts, stmts.len());
    stmts.map_values(|stmt: Stmt| oriented(cx, bound, stmt))
}

// ---- claims -----------------------------------------------------------------

/// The variables some statement has already said what they are, and those some key can
/// capture.
#[verifier::ext_equal]
pub struct Claimed {
    pub rows: Seq<Symbol>,
    pub aliased: Seq<Symbol>,
    pub capturable: Seq<Symbol>,
}

/// What every key of the first `k` statements can capture.
pub open spec fn capturable(cx: Cx, stmts: Seq<Stmt>, k: nat) -> Seq<Symbol>
    decreases k,
{
    if k == 0 {
        Seq::empty()
    } else {
        capturable(cx, stmts, (k - 1) as nat) + (match stmts[k - 1] {
            Stmt::Scan(scan) => alts_captures(cx, scan.alternatives@, scan.alternatives@.len()),
            _ => Seq::empty(),
        })
    }
}

/// `X = Y` between two variables that keys can bind compares them, and claims neither.
pub open spec fn is_compare(cx: Cx, alias: Alias, capturable: Seq<Symbol>) -> bool {
    is_one_of(cx, alias.pattern, capturable) && is_one_of(cx, alias.value, capturable)
}

/// Claim the first `k` of `names`, reporting a second claim.
pub open spec fn claim_names(
    st: St,
    claims: Claimed,
    names: Seq<Symbol>,
    k: nat,
    span: NodeSpan,
    is_row: bool,
) -> (St, Claimed)
    decreases k,
{
    if k == 0 {
        (st, claims)
    } else {
        let (s1, c1) = claim_names(st, claims, names, (k - 1) as nat, span, is_row);
        let name = names[k - 1];
        if c1.rows.contains(name) || c1.aliased.contains(name) {
            (
                s1.reporting(
                    Report {
                        code: Code::NyiBindUnification,
                        message: SAY_ALREADY@ + s1.names.shown(name) + SAY_ALREADY_IS@,
                        span,
                    },
                ),
                c1,
            )
        } else if is_row {
            (s1, Claimed { rows: c1.rows.push(name), ..c1 })
        } else {
            (s1, Claimed { aliased: c1.aliased.push(name), ..c1 })
        }
    }
}

/// What one statement claims.
pub open spec fn claim_stmt(cx: Cx, st: St, claims: Claimed, stmt: Stmt) -> (St, Claimed) {
    match stmt {
        Stmt::Scan(scan) => match scan.row {
            Some(row) => claim_names(st, claims, seq![row], 1, scan.span, true),
            None => (st, claims),
        },
        Stmt::Alias(alias) => if is_compare(cx, alias, claims.capturable) {
            (st, claims)
        } else {
            let names = model::bare_variables(cx, alias.pattern);
            claim_names(st, claims, names, names.len(), alias.span, false)
        },
        _ => (st, claims),
    }
}

/// What the first `k` statements claim.
pub open spec fn claimed(cx: Cx, st: St, stmts: Seq<Stmt>, k: nat) -> (St, Claimed)
    decreases k,
{
    if k == 0 {
        (
            st,
            Claimed {
                rows: Seq::empty(),
                aliased: Seq::empty(),
                capturable: capturable(cx, stmts, stmts.len()),
            },
        )
    } else {
        let (s1, c1) = claimed(cx, st, stmts, (k - 1) as nat);
        claim_stmt(cx, s1, c1, stmts[k - 1])
    }
}

// ---- occurrences ------------------------------------------------------------

/// One statement's variable occurrences: what it can capture, and what it can only
/// read.
#[verifier::ext_equal]
pub struct Occurs {
    pub captures: Seq<Symbol>,
    pub reads: Seq<Symbol>,
}

impl Occurs {
    /// The slices of these hold what they are made of.
    pub open spec fn sealed(self) -> bool {
        &&& boxed::boxed(self.captures)@ == self.captures
        &&& boxed::boxed(self.reads)@ == self.reads
    }

    pub open spec fn none() -> Occurs {
        Occurs { captures: Seq::empty(), reads: Seq::empty() }
    }

    /// A variable named twice appears once.
    pub open spec fn capture(self, var: Symbol) -> Occurs {
        if self.captures.contains(var) {
            self
        } else {
            Occurs { captures: self.captures.push(var), ..self }
        }
    }

    pub open spec fn read(self, var: Symbol) -> Occurs {
        if self.reads.contains(var) {
            self
        } else {
            Occurs { reads: self.reads.push(var), ..self }
        }
    }

    /// The first `k` of `vars`, captured.
    pub open spec fn capture_all(self, vars: Seq<Symbol>, k: nat) -> Occurs
        decreases k,
    {
        if k == 0 {
            self
        } else {
            self.capture_all(vars, (k - 1) as nat).capture(vars[k - 1])
        }
    }

    /// The first `k` of `vars`, read.
    pub open spec fn read_all(self, vars: Seq<Symbol>, k: nat) -> Occurs
        decreases k,
    {
        if k == 0 {
            self
        } else {
            self.read_all(vars, (k - 1) as nat).read(vars[k - 1])
        }
    }
}

/// The read of a hoisted generator's row.
pub open spec fn read_hoisted(st: St, node: NodeId, occurs: Occurs) -> Occurs {
    match model::hoisted_row(st.hoisted, node) {
        Some(row) => occurs.read(row),
        None => occurs,
    }
}

/// The variable a read is rooted at, or the row a hoisted generator was given.
pub open spec fn scan_read(cx: Cx, st: St, node: NodeId, occurs: Occurs) -> Occurs {
    let root = model::chain_root(cx, node);
    match cx.ast.kind(root) {
        ExprKind::Var(symbol) => occurs.read(symbol),
        ExprKind::Fact(_, _) => read_hoisted(st, root, occurs),
        _ => occurs,
    }
}

/// Whether a variable can only be read at a field of this type: something else has
/// already said what it is.
pub open spec fn only_read(claims: Claimed, ty: PredicateTy, symbol: Symbol) -> bool {
    claims.aliased.contains(symbol) || (ty is Fact && claims.rows.contains(symbol))
}

/// Walk one field of a key pattern.
pub open spec fn scan_field(
    cx: Cx,
    st: St,
    node: NodeId,
    ty: PredicateTy,
    claims: Claimed,
    occurs: Occurs,
) -> (St, Occurs)
    decreases node.0, 1nat, 0nat,
{
    match cx.ast.kind(node) {
        ExprKind::Var(symbol) => if only_read(claims, ty, symbol) {
            (st, occurs.read(symbol))
        } else {
            (st, occurs.capture(symbol))
        },
        ExprKind::Record(fields) => match ty {
            PredicateTy::Record(tys) => scan_fields(
                cx,
                st,
                node,
                fields@,
                tys@,
                tys@.len(),
                claims,
                occurs,
            ),
            _ => (st, occurs),
        },
        ExprKind::Access(FieldRef::Value, _) => (
            model::report(cx, st, node, Code::NyiValueMatch, SAY_VALUE_MATCH_ROW@),
            occurs,
        ),
        ExprKind::Access(FieldRef::Key(_), _) => (st, scan_read(cx, st, node, occurs)),
        ExprKind::Select(_, _) => (st, scan_read(cx, st, node, occurs)),
        ExprKind::Fact(_, _) => (st, read_hoisted(st, node, occurs)),
        _ => (st, occurs),
    }
}

/// The first `k` fields of the type.
pub open spec fn scan_fields(
    cx: Cx,
    st: St,
    node: NodeId,
    fields: Seq<(Symbol, NodeId)>,
    tys: Seq<(NameKey, PredicateTy)>,
    k: nat,
    claims: Claimed,
    occurs: Occurs,
) -> (St, Occurs)
    decreases node.0, 0nat, k,
{
    if k == 0 {
        (st, occurs)
    } else {
        let (s1, o1) = scan_fields(
            cx,
            st,
            node,
            fields,
            tys,
            (k - 1) as nat,
            claims,
            occurs,
        );
        match model::field_pattern(fields, Symbol::Schema(tys[k - 1].0)) {
            Some(piece) => if piece.0 < node.0 {
                scan_field(cx, s1, piece, tys[k - 1].1, claims, o1)
            } else {
                (s1, o1)
            },
            None => (s1, o1),
        }
    }
}

/// Walk a key pattern.
pub open spec fn scan_key(
    cx: Cx,
    st: St,
    alt: Alt,
    claims: Claimed,
    occurs: Occurs,
) -> (St, Occurs) {
    match cx.schema.predicate(alt.predicate) {
        Some(declared) => scan_field(cx, st, alt.key, declared.key, claims, occurs),
        None => (st, occurs),
    }
}

/// Walk the head for the variables it reads, reporting anything unprojectable.
pub open spec fn scan_head(cx: Cx, st: St, node: NodeId, occurs: Occurs) -> (St, Occurs)
    decreases node.0, 1nat, 0nat,
{
    match cx.ast.kind(node) {
        ExprKind::Lit(_) => (st, occurs),
        ExprKind::Var(symbol) => (st, occurs.read(symbol)),
        ExprKind::Record(fields) => scan_head_fields(
            cx,
            st,
            node,
            fields@,
            fields@.len(),
            occurs,
        ),
        ExprKind::Fact(_, _) => (st, read_hoisted(st, node, occurs)),
        kind => {
            let root = cx.ast.kind(model::chain_root(cx, node));
            if (kind is Access || kind is Select) && (root is Var || root is Fact) {
                (st, scan_read(cx, st, node, occurs))
            } else {
                (
                    model::report(cx, st, node, Code::RejectNotProjectable, SAY_NOT_PROJECTABLE@),
                    occurs,
                )
            }
        },
    }
}

/// The first `k` fields of a record head.
pub open spec fn scan_head_fields(
    cx: Cx,
    st: St,
    node: NodeId,
    fields: Seq<(Symbol, NodeId)>,
    k: nat,
    occurs: Occurs,
) -> (St, Occurs)
    decreases node.0, 0nat, k,
{
    if k == 0 {
        (st, occurs)
    } else {
        let (s1, o1) = scan_head_fields(cx, st, node, fields, (k - 1) as nat, occurs);
        if fields[k - 1].1.0 < node.0 {
            scan_head(cx, s1, fields[k - 1].1, o1)
        } else {
            (s1, o1)
        }
    }
}

/// The first `k` branches of a scan: what any of them reads, and what each captures.
pub open spec fn scan_branches(cx: Cx, st: St, claims: Claimed, alts: Seq<Alt>, k: nat) -> (
    St,
    Seq<Symbol>,
    Seq<Seq<Symbol>>,
)
    decreases k,
{
    if k == 0 {
        (st, Seq::empty(), Seq::empty())
    } else {
        let (s1, reads, captures) = scan_branches(cx, st, claims, alts, (k - 1) as nat);
        let (s2, branch) = scan_key(cx, s1, alts[k - 1], claims, Occurs::none());
        (s2, reads + branch.reads, captures.push(branch.captures))
    }
}

/// Whether every branch captures `var`.
pub open spec fn in_all(captures: Seq<Seq<Symbol>>, var: Symbol) -> bool {
    forall|i: int| 0 <= i < captures.len() ==> (#[trigger] captures[i]).contains(var)
}

/// The first `k` captures of the first branch that every branch has.
pub open spec fn capture_common(occurs: Occurs, captures: Seq<Seq<Symbol>>, k: nat) -> Occurs
    decreases k,
{
    if k == 0 {
        occurs
    } else {
        let before = capture_common(occurs, captures, (k - 1) as nat);
        if in_all(captures, captures[0][k - 1]) {
            before.capture(captures[0][k - 1])
        } else {
            before
        }
    }
}

/// The first `k` keys of a negation, walked into one set of occurrences.
pub open spec fn scan_alts(
    cx: Cx,
    st: St,
    claims: Claimed,
    alts: Seq<Alt>,
    k: nat,
    occurs: Occurs,
) -> (St, Occurs)
    decreases k,
{
    if k == 0 {
        (st, occurs)
    } else {
        let (s1, o1) = scan_alts(cx, st, claims, alts, (k - 1) as nat, occurs);
        scan_key(cx, s1, alts[k - 1], claims, o1)
    }
}

/// What one statement can capture and has to read. Captures of a disjunction's branches
/// intersect and reads unite; a negation reads everything and captures nothing; a
/// compare reads both sides and binds neither.
pub open spec fn stmt_occurs(cx: Cx, st: St, claims: Claimed, stmt: Stmt) -> (St, Occurs) {
    match stmt {
        Stmt::Scan(scan) => {
            let own = match scan.row {
                Some(row) => Occurs::none().capture(row),
                None => Occurs::none(),
            };
            let (after, reads, captures) = scan_branches(
                cx,
                st,
                claims,
                scan.alternatives@,
                scan.alternatives@.len(),
            );
            let with_reads = Occurs { reads: own.reads + reads, ..own };
            if captures.len() == 0 {
                (after, with_reads)
            } else {
                (after, capture_common(with_reads, captures, captures[0].len()))
            }
        },
        Stmt::Alias(alias) => {
            let vars = model::bare_variables(cx, alias.pattern);
            let left = if is_compare(cx, alias, claims.capturable) {
                scan_read(cx, st, alias.pattern, Occurs::none())
            } else {
                Occurs::none().capture_all(vars, vars.len())
            };
            (st, scan_read(cx, st, alias.value, left))
        },
        Stmt::Negate(tested) => {
            let (after, occurs) = scan_alts(
                cx,
                st,
                claims,
                tested.alternatives@,
                tested.alternatives@.len(),
                Occurs::none(),
            );
            (
                after,
                Occurs { captures: Seq::empty(), ..occurs }.read_all(
                    occurs.captures,
                    occurs.captures.len(),
                ),
            )
        },
        Stmt::Constrain(constraint) => (st, scan_read(cx, st, constraint.var, Occurs::none())),
    }
}

/// The dependencies of the first `k` statements.
pub open spec fn deps_of(cx: Cx, st: St, claims: Claimed, stmts: Seq<Stmt>, k: nat) -> (
    St,
    Seq<StmtDeps>,
)
    decreases k,
{
    if k == 0 {
        (st, Seq::empty())
    } else {
        let (s1, before) = deps_of(cx, st, claims, stmts, (k - 1) as nat);
        let (s2, occurs) = stmt_occurs(cx, s1, claims, stmts[k - 1]);
        (
            s2.sealing(occurs.sealed()),
            before.push(
                StmtDeps {
                    captures: boxed::boxed(occurs.captures),
                    reads: boxed::boxed(occurs.reads),
                    placement: stmts[k - 1].placed(),
                },
            ),
        )
    }
}

// ---- negations that quantify ------------------------------------------------

/// What the first `k` statements can capture.
pub open spec fn all_captures(deps: Seq<StmtDeps>, k: nat) -> Seq<Symbol>
    decreases k,
{
    if k == 0 {
        Seq::empty()
    } else {
        all_captures(deps, (k - 1) as nat) + deps[k - 1].captures@
    }
}

/// The variables among the first `k` bindings that a constant was folded into.
pub open spec fn folded(bindings: Seq<(Symbol, Slot)>, k: nat) -> Seq<Symbol>
    decreases k,
{
    if k == 0 {
        Seq::empty()
    } else if bindings[k - 1].1 is Const {
        folded(bindings, (k - 1) as nat).push(bindings[k - 1].0)
    } else {
        folded(bindings, (k - 1) as nat)
    }
}

/// Report the first `k` reads of a negation that nothing binds.
pub open spec fn unbound_reads(
    st: St,
    known: Seq<Symbol>,
    reads: Seq<Symbol>,
    k: nat,
    span: NodeSpan,
) -> St
    decreases k,
{
    if k == 0 {
        st
    } else {
        let s1 = unbound_reads(st, known, reads, (k - 1) as nat, span);
        if known.contains(reads[k - 1]) {
            s1
        } else {
            s1.reporting(
                Report {
                    code: Code::RejectUnboundVariable,
                    message: SAY_NOTHING_BINDS@ + s1.names.shown(reads[k - 1])
                        + SAY_WILDCARD_MEANT@,
                    span,
                },
            )
        }
    }
}

/// Those of the first `k` statements.
pub open spec fn negated_wildcards(
    st: St,
    known: Seq<Symbol>,
    stmts: Seq<Stmt>,
    deps: Seq<StmtDeps>,
    k: nat,
) -> St
    decreases k,
{
    if k == 0 {
        st
    } else {
        let s1 = negated_wildcards(st, known, stmts, deps, (k - 1) as nat);
        match stmts[k - 1] {
            Stmt::Negate(tested) => unbound_reads(
                s1,
                known,
                deps[k - 1].reads@,
                deps[k - 1].reads@.len(),
                tested.span,
            ),
            _ => s1,
        }
    }
}

// ---- all of it --------------------------------------------------------------

/// What there is before an order is chosen.
#[verifier::ext_equal]
pub struct Gathered {
    pub stmts: Seq<Stmt>,
    pub deps: Seq<StmtDeps>,
    pub head_reads: Seq<Symbol>,
}

/// Statements, the graph over them, and the head's reads. `None` where anything was
/// reported.
pub open spec fn collected(cx: Cx, st: St) -> (St, Option<Gathered>) {
    let query = cx.ast.root();
    let (s1, q1) = collected_body(cx, st, query.body@, query.body@.len());
    let (s2, q2) = hoist_node(cx, s1, q1, query.head);
    let stmts = all_oriented(cx, q2);
    let (s3, claims) = claimed(cx, s2, stmts, stmts.len());
    let (s4, deps) = deps_of(cx, s3, claims, stmts, stmts.len());
    let known = all_captures(deps, deps.len()) + folded(s4.bindings, s4.bindings.len());
    let s5 = negated_wildcards(s4, known, stmts, deps, stmts.len());
    let (s6, head) = scan_head(cx, s5, query.head, Occurs::none());
    if s6.reports.len() != st.reports.len() {
        (s6, None)
    } else {
        (s6, Some(Gathered { stmts, deps, head_reads: head.reads }))
    }
}

} // verus!
