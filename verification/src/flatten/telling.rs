//! What collecting a query has to do with its tree: the statements that are collected are the
//! ones the tree has, no more and no fewer, and every fact pattern is ranged over.
use vstd::prelude::*;

use super::answering::Job;
use super::collecting;
use super::collecting::Occurs;
use super::emitting::Compiled;
use super::gathering;
use super::laws;
use super::matching;
use super::model;
use super::model::{Alt, Cx, Slot, St, Stmt};
use super::running;
use super::scope;
use crate::answers;
use crate::diag::Report;
use crate::flatten;
use crate::iter;
use crate::machine;
use crate::plan::FactStore;
use crate::reading;
use crate::reading::typing;
use crate::reorder::Placement;
use crate::schema::{Names, Symbol};
use crate::syntax;
use crate::syntax::{Ast, ExprKind, NodeId, QueryStmt};

verus! {

// ---- what the tree has ------------------------------------------------------

/// Whether a node is a fact pattern.
pub open spec fn is_pattern(ast: Ast) -> spec_fn(NodeId) -> bool {
    |node: NodeId| ast.kind(node) is Fact
}

/// The fact patterns a statement ranges over: itself, or every branch of a disjunction that
/// is one, in order.
pub open spec fn patterns_of(ast: Ast, node: NodeId) -> Seq<NodeId> {
    match ast.kind(node) {
        ExprKind::Fact(_, _) => seq![node],
        ExprKind::Disjunction(branches) => branches@.filter(is_pattern(ast)),
        _ => Seq::empty(),
    }
}

/// What a statement asks for.
pub enum Part {
    /// A fact that one of these patterns matches, under a name if it has one.
    Range(Seq<NodeId>, Option<Symbol>),
    /// That no fact matches any of these patterns.
    Deny(Seq<NodeId>),
    /// That a pattern is what a value is.
    Name(NodeId, NodeId),
    /// That a variable begins with a prefix.
    Begin(NodeId),
    /// The fact that a pattern inside another stands for.
    Nested(NodeId),
}

/// The variable a node is.
pub open spec fn variable(ast: Ast, node: NodeId) -> Option<Symbol> {
    match ast.kind(node) {
        ExprKind::Var(symbol) => Some(symbol),
        _ => None,
    }
}

/// What a statement inside a subquery asks for.
pub open spec fn inner_part(ast: Ast) -> spec_fn(QueryStmt) -> Part {
    |stmt: QueryStmt|
        match stmt {
            QueryStmt::Implicit(node) => Part::Range(patterns_of(ast, node), None),
            QueryStmt::Bind(lhs, rhs) => Part::Name(lhs, rhs),
            QueryStmt::Negation(node) => Part::Deny(patterns_of(ast, node)),
        }
}

/// What a statement of a query's body asks for: a subquery, all that its statements do, and
/// that the pattern is what its head is; and a constant, nothing of the facts.
pub open spec fn parts_of(ast: Ast) -> spec_fn(QueryStmt) -> Seq<Part> {
    |stmt: QueryStmt|
        match stmt {
            QueryStmt::Implicit(node) => seq![Part::Range(patterns_of(ast, node), None)],
            QueryStmt::Negation(node) => seq![Part::Deny(patterns_of(ast, node))],
            QueryStmt::Bind(lhs, rhs) => match ast.kind(rhs) {
                ExprKind::Subquery(query) => query.body@.map_values(inner_part(ast)).push(
                    Part::Name(lhs, query.head),
                ),
                ExprKind::Fact(_, _) => seq![Part::Range(patterns_of(ast, rhs), variable(ast, lhs))],
                ExprKind::Disjunction(_) => seq![
                    Part::Range(patterns_of(ast, rhs), variable(ast, lhs)),
                ],
                ExprKind::Never => seq![Part::Range(Seq::empty(), variable(ast, lhs))],
                ExprKind::Prefix(_) => seq![Part::Begin(lhs)],
                _ => if ast.constant(rhs) {
                    Seq::empty()
                } else {
                    seq![Part::Name(lhs, rhs)]
                },
            },
        }
}

/// Everything a query's body asks for, in order.
pub open spec fn body_parts(ast: Ast, body: Seq<QueryStmt>) -> Seq<Part> {
    body.map_values(parts_of(ast)).flatten_alt()
}

/// Alternatives are these fact patterns: each its predicate and its key.
pub open spec fn are(ast: Ast, alts: Seq<Alt>, nodes: Seq<NodeId>) -> bool {
    &&& alts.len() == nodes.len()
    &&& forall|i: int|
        0 <= i < alts.len() ==> ast.kind(#[trigger] nodes[i]) == ExprKind::Fact(
            alts[i].predicate,
            alts[i].key,
        )
}

/// A collected statement asks for what a part of the tree does. Which side of `X = Y` the
/// value comes from is left open.
pub open spec fn asks(ast: Ast, hoisted: Seq<(NodeId, Symbol)>, stmt: Stmt, part: Part) -> bool {
    match (stmt, part) {
        (Stmt::Scan(scan), Part::Range(nodes, row)) => scan.placement == Placement::Written
            && scan.row == row && are(ast, scan.alternatives@, nodes),
        (Stmt::Scan(scan), Part::Nested(node)) => scan.placement == Placement::Floating && (
        scan.row matches Some(row) && hoisted.contains((node, row))) && are(
            ast,
            scan.alternatives@,
            seq![node],
        ),
        (Stmt::Negate(tested), Part::Deny(nodes)) => are(ast, tested.alternatives@, nodes),
        (Stmt::Alias(alias), Part::Name(pattern, value)) => (alias.pattern == pattern
            && alias.value == value) || (alias.pattern == value && alias.value == pattern
            && ast.kind(value) is Var && ast.kind(pattern) is Var),
        (Stmt::Constrain(constraint), Part::Begin(var)) => constraint.var == var,
        _ => false,
    }
}

/// Statements ask for parts, one for one.
pub open spec fn all_ask(
    ast: Ast,
    hoisted: Seq<(NodeId, Symbol)>,
    stmts: Seq<Stmt>,
    parts: Seq<Part>,
) -> bool {
    &&& stmts.len() == parts.len()
    &&& forall|i: int| 0 <= i < stmts.len() ==> asks(ast, hoisted, #[trigger] stmts[i], parts[i])
}

/// Whether a statement is written, and not invented for a pattern inside another.
pub open spec fn is_written() -> spec_fn(Stmt) -> bool {
    |stmt: Stmt| !(stmt matches Stmt::Scan(scan) && scan.placement == Placement::Floating)
}

/// A node that another is made of: a field of a record, or what a step is taken of.
pub open spec fn piece(ast: Ast, node: NodeId, inner: NodeId) -> bool {
    inner.0 < node.0 && match ast.kind(node) {
        ExprKind::Record(fields) => exists|i: int|
            0 <= i < fields@.len() && (#[trigger] fields@[i]).1 == inner,
        ExprKind::Access(_, base) => base == inner,
        ExprKind::Select(_, base) => base == inner,
        _ => false,
    }
}

/// Whether a fact pattern stands somewhere inside a node: as a piece of it, a piece of a
/// piece, or a piece of the key of another inside it.
pub open spec fn inside(ast: Ast, node: NodeId, pattern: NodeId) -> bool
    decreases node.0,
{
    exists|inner: NodeId| #[trigger]
        piece(ast, node, inner) && inner.0 < node.0 && (inner == pattern || inside(
            ast,
            inner,
            pattern,
        ) || (ast.kind(inner) matches ExprKind::Fact(_, key) && key.0 < inner.0 && inside(
            ast,
            key,
            pattern,
        )))
}

/// The nodes in which a part's nested patterns stand: the keys of what it ranges over, or the
/// value it names.
pub open spec fn reads_in(ast: Ast, part: Part, node: NodeId) -> bool {
    match part {
        Part::Range(nodes, _) => exists|i: int|
            0 <= i < nodes.len() && (ast.kind(#[trigger] nodes[i]) matches ExprKind::Fact(_, key)
                && key == node),
        Part::Name(_, value) => value == node,
        _ => false,
    }
}

/// Those in which a statement's do. The head of a subquery is a value of its own.
pub open spec fn stmt_reads_in(ast: Ast, stmt: QueryStmt, node: NodeId) -> bool {
    match stmt {
        QueryStmt::Bind(_, rhs) if ast.kind(rhs) is Subquery => exists|i: int|
            0 <= i < ast.kind(rhs)->Subquery_0.body@.len() && reads_in(
                ast,
                inner_part(ast)(#[trigger] ast.kind(rhs)->Subquery_0.body@[i]),
                node,
            ),
        _ => exists|i: int|
            0 <= i < parts_of(ast)(stmt).len() && reads_in(
                ast,
                #[trigger] parts_of(ast)(stmt)[i],
                node,
            ),
    }
}

// ---- nested patterns, listed ------------------------------------------------

spec fn list_within(ast: Ast, node: NodeId) -> Seq<Part>
    decreases node.0, 1nat, 0nat,
{
    match ast.kind(node) {
        ExprKind::Record(fields) => list_fields(ast, node, fields@, fields@.len()),
        ExprKind::Access(_, base) => if base.0 < node.0 {
            list_at(ast, base)
        } else {
            Seq::empty()
        },
        ExprKind::Select(_, base) => if base.0 < node.0 {
            list_at(ast, base)
        } else {
            Seq::empty()
        },
        _ => Seq::empty(),
    }
}

spec fn list_fields(ast: Ast, node: NodeId, fields: Seq<(Symbol, NodeId)>, k: nat) -> Seq<Part>
    decreases node.0, 0nat, k,
{
    if k == 0 {
        Seq::empty()
    } else {
        list_fields(ast, node, fields, (k - 1) as nat) + (if fields[k - 1].1.0 < node.0 {
            list_at(ast, fields[k - 1].1)
        } else {
            Seq::empty()
        })
    }
}

spec fn list_at(ast: Ast, node: NodeId) -> Seq<Part>
    decreases node.0, 2nat, 0nat,
{
    match ast.kind(node) {
        ExprKind::Fact(_, key) => if key.0 < node.0 {
            list_within(ast, key).push(Part::Nested(node))
        } else {
            Seq::empty()
        },
        _ => list_within(ast, node),
    }
}

spec fn list_keys(ast: Ast, nodes: Seq<NodeId>, k: nat) -> Seq<Part>
    decreases k,
{
    if k == 0 {
        Seq::empty()
    } else {
        list_keys(ast, nodes, (k - 1) as nat) + list_within(ast, ast.kind(nodes[k - 1])->Fact_1)
    }
}

/// A part, after those its patterns have inside them.
spec fn with_nested(ast: Ast, part: Part) -> Seq<Part> {
    (match part {
        Part::Range(nodes, _) => list_keys(ast, nodes, nodes.len()),
        Part::Name(_, value) => list_within(ast, value),
        _ => Seq::empty(),
    }).push(part)
}

/// The last part of a subquery names its head, in which nothing is nested.
spec fn list_stmts(ast: Ast, body: Seq<QueryStmt>, k: nat) -> Seq<Part>
    decreases k,
{
    if k == 0 {
        Seq::empty()
    } else {
        list_stmts(ast, body, (k - 1) as nat) + with_nested(ast, inner_part(ast)(body[k - 1]))
    }
}

spec fn list_stmt(ast: Ast, stmt: QueryStmt) -> Seq<Part> {
    match stmt {
        QueryStmt::Bind(lhs, rhs) => match ast.kind(rhs) {
            ExprKind::Subquery(query) => list_stmts(ast, query.body@, query.body@.len()).push(
                Part::Name(lhs, query.head),
            ),
            _ => if parts_of(ast)(stmt).len() == 1 {
                with_nested(ast, parts_of(ast)(stmt)[0])
            } else {
                Seq::empty()
            },
        },
        _ => with_nested(ast, parts_of(ast)(stmt)[0]),
    }
}

spec fn list_body(ast: Ast, body: Seq<QueryStmt>, k: nat) -> Seq<Part>
    decreases k,
{
    if k == 0 {
        Seq::empty()
    } else {
        list_body(ast, body, (k - 1) as nat) + list_stmt(ast, body[k - 1])
    }
}

// ---- collecting asks for what is listed -------------------------------------

proof fn lemma_more_hoisted(
    ast: Ast,
    less: Seq<(NodeId, Symbol)>,
    more: Seq<(NodeId, Symbol)>,
    stmts: Seq<Stmt>,
    parts: Seq<Part>,
)
    requires
        all_ask(ast, less, stmts, parts),
        forall|one: (NodeId, Symbol)| #[trigger] less.contains(one) ==> more.contains(one),
    ensures
        all_ask(ast, more, stmts, parts),
{
    assert forall|i: int| 0 <= i < stmts.len() implies asks(
        ast,
        more,
        #[trigger] stmts[i],
        parts[i],
    ) by {
        assert(asks(ast, less, stmts[i], parts[i]));
    }
}

proof fn lemma_one_more(
    ast: Ast,
    hoisted: Seq<(NodeId, Symbol)>,
    stmts: Seq<Stmt>,
    parts: Seq<Part>,
    stmt: Stmt,
    part: Part,
)
    requires
        all_ask(ast, hoisted, stmts, parts),
        asks(ast, hoisted, stmt, part),
    ensures
        all_ask(ast, hoisted, stmts.push(stmt), parts.push(part)),
{
    let (all, told) = (stmts.push(stmt), parts.push(part));
    assert forall|i: int| 0 <= i < all.len() implies asks(
        ast,
        hoisted,
        #[trigger] all[i],
        told[i],
    ) by {
        if i < stmts.len() {
            assert(all[i] == stmts[i]);
            assert(told[i] == parts[i]);
        }
    }
}

proof fn lemma_branches(cx: Cx, st: St, branches: Seq<NodeId>, k: nat)
    requires
        k <= branches.len(),
    ensures
        ({
            let (after, found) = collecting::branches_of(cx, st, branches, k);
            &&& found matches Some(alts) ==> are(
                cx.ast,
                alts,
                branches.take(k as int).filter(is_pattern(cx.ast)),
            )
            &&& found is None ==> after.reports.len() > st.reports.len()
            &&& after.reports.len() >= st.reports.len()
            &&& after.hoisted == st.hoisted
        }),
    decreases k,
{
    reveal(Seq::filter);
    let all = branches.take(k as int);
    if k > 0 {
        lemma_branches(cx, st, branches, (k - 1) as nat);
        let less = branches.take(k - 1);
        assert(all.drop_last() =~= less);
        assert(all.last() == branches[k - 1]);
        let (s1, before) = collecting::branches_of(cx, st, branches, (k - 1) as nat);
        if let Some(alts) = before {
            if let ExprKind::Fact(predicate, key) = cx.ast.kind(branches[k - 1]) {
                let nodes = less.filter(is_pattern(cx.ast)).push(branches[k - 1]);
                let more = alts.push(Alt { predicate, key });
                assert forall|i: int| 0 <= i < more.len() implies cx.ast.kind(
                    #[trigger] nodes[i],
                ) == ExprKind::Fact(more[i].predicate, more[i].key) by {
                    if i < alts.len() {
                        assert(nodes[i] == less.filter(is_pattern(cx.ast))[i]);
                        assert(more[i] == alts[i]);
                    }
                }
            }
        }
    }
}

/// A generator's alternatives are the fact patterns its node ranges over.
pub proof fn lemma_generator(cx: Cx, st: St, node: NodeId, row: Option<Symbol>)
    ensures
        ({
            let (after, found) = collecting::generator(cx, st, node, row);
            &&& found matches Some(scan) ==> after.sealed ==> are(
                cx.ast,
                scan.alternatives@,
                patterns_of(cx.ast, node),
            ) && scan.row == row && scan.placement == Placement::Written
            &&& found is None ==> after.reports.len() > st.reports.len()
            &&& after.reports.len() >= st.reports.len()
            &&& after.hoisted == st.hoisted
        }),
{
    match cx.ast.kind(node) {
        ExprKind::Fact(predicate, key) => {
            let alts = seq![Alt { predicate, key }];
            assert(alts[0].predicate == predicate && alts[0].key == key);
            assert(patterns_of(cx.ast, node)[0] == node);
        },
        ExprKind::Disjunction(branches) => {
            lemma_branches(cx, st, branches@, branches@.len());
            assert(branches@.take(branches@.len() as int) =~= branches@);
        },
        _ => {},
    }
}

proof fn lemma_within(cx: Cx, st: St, stmts: Seq<Stmt>, node: NodeId, parts: Seq<Part>)
    requires
        cx.ast.wf(),
        cx.ast.has(node),
        scope::within(st, 0),
        all_ask(cx.ast, st.hoisted, stmts, parts),
        collecting::hoist_within(cx, st, stmts, node).0.sealed,
    ensures
        ({
            let (after, more) = collecting::hoist_within(cx, st, stmts, node);
            &&& all_ask(cx.ast, after.hoisted, more, parts + list_within(cx.ast, node))
            &&& after.constraints == st.constraints
            &&& forall|one: (NodeId, Symbol)| #[trigger]
                st.hoisted.contains(one) ==> after.hoisted.contains(one)
        }),
    decreases node.0, 1nat, 0nat,
{
    assert(syntax::children_below(cx.ast.tree().kinds()[node.0 as int], node.0 as nat));
    assert(parts + Seq::<Part>::empty() =~= parts);
    match cx.ast.kind(node) {
        ExprKind::Record(fields) => lemma_fields(
            cx,
            st,
            stmts,
            node,
            fields@,
            fields@.len(),
            parts,
        ),
        ExprKind::Access(_, base) => lemma_at(cx, st, stmts, base, parts),
        ExprKind::Select(_, base) => lemma_at(cx, st, stmts, base, parts),
        _ => {},
    }
}

proof fn lemma_fields(
    cx: Cx,
    st: St,
    stmts: Seq<Stmt>,
    node: NodeId,
    fields: Seq<(Symbol, NodeId)>,
    k: nat,
    parts: Seq<Part>,
)
    requires
        cx.ast.wf(),
        cx.ast.has(node),
        k <= fields.len(),
        forall|i: int| 0 <= i < fields.len() ==> (#[trigger] fields[i]).1.0 < node.0,
        scope::within(st, 0),
        all_ask(cx.ast, st.hoisted, stmts, parts),
        collecting::hoist_fields(cx, st, stmts, node, fields, k).0.sealed,
    ensures
        ({
            let (after, more) = collecting::hoist_fields(cx, st, stmts, node, fields, k);
            &&& all_ask(cx.ast, after.hoisted, more, parts + list_fields(cx.ast, node, fields, k))
            &&& after.constraints == st.constraints
            &&& forall|one: (NodeId, Symbol)| #[trigger]
                st.hoisted.contains(one) ==> after.hoisted.contains(one)
        }),
    decreases node.0, 0nat, k,
{
    assert(parts + Seq::<Part>::empty() =~= parts);
    if k > 0 {
        let j = (k - 1) as nat;
        let (s1, q1) = collecting::hoist_fields(cx, st, stmts, node, fields, j);
        scope::lemma_hoist_fields_gather(cx, st, stmts, node, fields, j);
        assert(fields[k - 1].1.0 < node.0);
        scope::lemma_hoist_node_gathers(cx, s1, q1, fields[k - 1].1);
        lemma_fields(cx, st, stmts, node, fields, j, parts);
        let before = list_fields(cx.ast, node, fields, j);
        lemma_at(cx, s1, q1, fields[k - 1].1, parts + before);
        assert(parts + before + list_at(cx.ast, fields[k - 1].1) =~= parts + list_fields(
            cx.ast,
            node,
            fields,
            k,
        ));
    }
}

proof fn lemma_at(cx: Cx, st: St, stmts: Seq<Stmt>, node: NodeId, parts: Seq<Part>)
    requires
        cx.ast.wf(),
        cx.ast.has(node),
        scope::within(st, 0),
        all_ask(cx.ast, st.hoisted, stmts, parts),
        collecting::hoist_node(cx, st, stmts, node).0.sealed,
    ensures
        ({
            let (after, more) = collecting::hoist_node(cx, st, stmts, node);
            &&& all_ask(cx.ast, after.hoisted, more, parts + list_at(cx.ast, node))
            &&& after.constraints == st.constraints
            &&& forall|one: (NodeId, Symbol)| #[trigger]
                st.hoisted.contains(one) ==> after.hoisted.contains(one)
        }),
    decreases node.0, 2nat, 0nat,
{
    assert(syntax::children_below(cx.ast.tree().kinds()[node.0 as int], node.0 as nat));
    match cx.ast.kind(node) {
        ExprKind::Fact(predicate, key) => {
            lemma_within(cx, st, stmts, key, parts);
            let (s1, q1) = collecting::hoist_within(cx, st, stmts, key);
            let (s2, q2) = collecting::hoist_node(cx, st, stmts, node);
            let alts = seq![Alt { predicate, key }];
            let row = q2.last()->Scan_0.row->0;
            assert(s2.hoisted == s1.hoisted.push((node, row)));
            assert forall|one: (NodeId, Symbol)| #[trigger]
                s1.hoisted.contains(one) implies s2.hoisted.contains(one) by {
                let i = choose|i: int| 0 <= i < s1.hoisted.len() && s1.hoisted[i] == one;
                assert(s2.hoisted[i] == one);
            }
            assert(s2.hoisted[s1.hoisted.len() as int] == (node, row));
            assert(alts[0].predicate == predicate && alts[0].key == key);
            assert(seq![node][0] == node);
            assert(q2.last()->Scan_0.alternatives@ == alts);
            assert(are(cx.ast, alts, seq![node]));
            let before = list_within(cx.ast, key);
            lemma_more_hoisted(cx.ast, s1.hoisted, s2.hoisted, q1, parts + before);
            lemma_one_more(
                cx.ast,
                s2.hoisted,
                q1,
                parts + before,
                q2.last(),
                Part::Nested(node),
            );
            assert(q2 =~= q1.push(q2.last()));
            assert((parts + before).push(Part::Nested(node)) =~= parts + list_at(cx.ast, node));
        },
        _ => lemma_within(cx, st, stmts, node, parts),
    }
}

proof fn lemma_keys(
    cx: Cx,
    st: St,
    stmts: Seq<Stmt>,
    alts: Seq<Alt>,
    nodes: Seq<NodeId>,
    k: nat,
    parts: Seq<Part>,
)
    requires
        cx.ast.wf(),
        k <= alts.len(),
        are(cx.ast, alts, nodes),
        forall|i: int| 0 <= i < alts.len() ==> cx.ast.has((#[trigger] alts[i]).key),
        scope::within(st, 0),
        all_ask(cx.ast, st.hoisted, stmts, parts),
        collecting::hoist_alts(cx, st, stmts, alts, k).0.sealed,
    ensures
        ({
            let (after, more) = collecting::hoist_alts(cx, st, stmts, alts, k);
            &&& all_ask(cx.ast, after.hoisted, more, parts + list_keys(cx.ast, nodes, k))
            &&& after.constraints == st.constraints
            &&& forall|one: (NodeId, Symbol)| #[trigger]
                st.hoisted.contains(one) ==> after.hoisted.contains(one)
        }),
    decreases k,
{
    assert(parts + Seq::<Part>::empty() =~= parts);
    if k > 0 {
        let j = (k - 1) as nat;
        let (s1, q1) = collecting::hoist_alts(cx, st, stmts, alts, j);
        scope::lemma_hoist_alts_gather(cx, st, stmts, alts, j);
        assert(cx.ast.has(alts[k - 1].key));
        assert(cx.ast.kind(nodes[k - 1]) == ExprKind::Fact(alts[k - 1].predicate, alts[k - 1].key));
        scope::lemma_hoist_within_gathers(cx, s1, q1, alts[k - 1].key);
        lemma_keys(cx, st, stmts, alts, nodes, j, parts);
        let before = list_keys(cx.ast, nodes, j);
        lemma_within(cx, s1, q1, alts[k - 1].key, parts + before);
        assert(parts + before + list_within(cx.ast, alts[k - 1].key) =~= parts + list_keys(
            cx.ast,
            nodes,
            k,
        ));
    }
}

/// What a step of collecting has to show: where nothing was reported on the way, the
/// statements ask for the parts, and those added.
spec fn told(cx: Cx, st: St, after: St, more: Seq<Stmt>, parts: Seq<Part>, added: Seq<Part>) -> bool {
    &&& all_ask(cx.ast, after.hoisted, more, parts + added)
    &&& forall|one: (NodeId, Symbol)| #[trigger]
        st.hoisted.contains(one) ==> after.hoisted.contains(one)
}

proof fn lemma_has_keys(cx: Cx, alts: Seq<Alt>, nodes: Seq<NodeId>)
    requires
        cx.ast.wf(),
        are(cx.ast, alts, nodes),
        forall|i: int| 0 <= i < nodes.len() ==> cx.ast.has(#[trigger] nodes[i]),
    ensures
        forall|i: int| 0 <= i < alts.len() ==> cx.ast.has((#[trigger] alts[i]).key),
{
    assert forall|i: int| 0 <= i < alts.len() implies cx.ast.has((#[trigger] alts[i]).key) by {
        let node = nodes[i];
        assert(cx.ast.has(node));
        assert(cx.ast.kind(node) == ExprKind::Fact(alts[i].predicate, alts[i].key));
        assert(syntax::children_below(cx.ast.tree().kinds()[node.0 as int], node.0 as nat));
    }
}

pub proof fn lemma_patterns_had(ast: Ast, node: NodeId)
    requires
        ast.wf(),
        ast.has(node),
    ensures
        forall|i: int|
            0 <= i < patterns_of(ast, node).len() ==> ast.has(#[trigger] patterns_of(ast, node)[i]),
{
    let nodes = patterns_of(ast, node);
    if let ExprKind::Disjunction(branches) = ast.kind(node) {
        assert(syntax::children_below(ast.tree().kinds()[node.0 as int], node.0 as nat));
        assert forall|i: int| 0 <= i < nodes.len() implies ast.has(#[trigger] nodes[i]) by {
            branches@.lemma_filter_contains_rev(is_pattern(ast), nodes[i]);
            let j = choose|j: int| 0 <= j < branches@.len() && branches@[j] == nodes[i];
            assert(branches@[j].0 < node.0);
        }
    }
}

proof fn lemma_scanned(
    cx: Cx,
    st: St,
    stmts: Seq<Stmt>,
    node: NodeId,
    row: Option<Symbol>,
    parts: Seq<Part>,
)
    requires
        cx.ast.wf(),
        cx.ast.has(node),
        scope::within(st, 0),
        all_ask(cx.ast, st.hoisted, stmts, parts),
        collecting::scanned(cx, st, stmts, node, row).0.sealed,
        collecting::scanned(cx, st, stmts, node, row).0.reports.len() == st.reports.len(),
    ensures
        ({
            let (after, more) = collecting::scanned(cx, st, stmts, node, row);
            told(
                cx,
                st,
                after,
                more,
                parts,
                with_nested(cx.ast, Part::Range(patterns_of(cx.ast, node), row)),
            ) && after.constraints == st.constraints
        }),
{
    let (s1, found) = collecting::generator(cx, st, node, row);
    scope::lemma_generator_gathers(cx, st, node, row);
    lemma_generator(cx, st, node, row);
    let nodes = patterns_of(cx.ast, node);
    lemma_patterns_had(cx.ast, node);
    assert(found is Some);
    let scan = found->0;
    let alts = scan.alternatives@;
    scope::lemma_hoist_alts_gather(cx, s1, stmts, alts, alts.len());
    lemma_has_keys(cx, alts, nodes);
    lemma_keys(cx, s1, stmts, alts, nodes, alts.len(), parts);
    let (s2, q2) = collecting::hoist_alts(cx, s1, stmts, alts, alts.len());
    let part = Part::Range(nodes, row);
    let before = list_keys(cx.ast, nodes, nodes.len());
    lemma_one_more(cx.ast, s2.hoisted, q2, parts + before, Stmt::Scan(scan), part);
    assert((parts + before).push(part) =~= parts + with_nested(cx.ast, part));
    lemma_generator_constraints(cx, st, node, row);
}

proof fn lemma_generator_constraints(cx: Cx, st: St, node: NodeId, row: Option<Symbol>)
    ensures
        collecting::generator(cx, st, node, row).0.constraints == st.constraints,
{
    if let ExprKind::Disjunction(branches) = cx.ast.kind(node) {
        lemma_branches_constraints(cx, st, branches@, branches@.len());
    }
}

proof fn lemma_branches_constraints(cx: Cx, st: St, branches: Seq<NodeId>, k: nat)
    ensures
        collecting::branches_of(cx, st, branches, k).0.constraints == st.constraints,
    decreases k,
{
    if k > 0 {
        lemma_branches_constraints(cx, st, branches, (k - 1) as nat);
    }
}

/// A value that is named, after what is nested in it.
proof fn lemma_named(
    cx: Cx,
    st: St,
    stmts: Seq<Stmt>,
    lhs: NodeId,
    rhs: NodeId,
    parts: Seq<Part>,
    last: Stmt,
)
    requires
        cx.ast.wf(),
        cx.ast.has(rhs),
        scope::within(st, 0),
        all_ask(cx.ast, st.hoisted, stmts, parts),
        collecting::hoist_within(cx, st, stmts, rhs).0.sealed,
        last matches Stmt::Alias(alias) && alias.pattern == lhs && alias.value == rhs,
    ensures
        ({
            let (after, more) = collecting::hoist_within(cx, st, stmts, rhs);
            told(
                cx,
                st,
                after,
                more.push(last),
                parts,
                with_nested(cx.ast, Part::Name(lhs, rhs)),
            ) && after.constraints == st.constraints
        }),
{
    lemma_within(cx, st, stmts, rhs, parts);
    let (after, more) = collecting::hoist_within(cx, st, stmts, rhs);
    let part = Part::Name(lhs, rhs);
    let before = list_within(cx.ast, rhs);
    lemma_one_more(cx.ast, after.hoisted, more, parts + before, last, part);
    assert((parts + before).push(part) =~= parts + with_nested(cx.ast, part));
}

proof fn lemma_inlined(
    cx: Cx,
    st: St,
    stmts: Seq<Stmt>,
    body: Seq<QueryStmt>,
    k: nat,
    parts: Seq<Part>,
)
    requires
        cx.ast.wf(),
        k <= body.len(),
        forall|i: int|
            0 <= i < body.len() ==> syntax::stmt_below(
                #[trigger] body[i],
                cx.ast.tree().kinds().len(),
            ),
        scope::within(st, 0),
        all_ask(cx.ast, st.hoisted, stmts, parts),
        collecting::inlined(cx, st, stmts, body, k).0.sealed,
        collecting::inlined(cx, st, stmts, body, k).0.reports.len() == st.reports.len(),
    ensures
        ({
            let (after, more) = collecting::inlined(cx, st, stmts, body, k);
            told(cx, st, after, more, parts, list_stmts(cx.ast, body, k)) && after.constraints
                == st.constraints
        }),
    decreases k,
{
    assert(parts + Seq::<Part>::empty() =~= parts);
    if k > 0 {
        let j = (k - 1) as nat;
        let (s1, q1) = collecting::inlined(cx, st, stmts, body, j);
        scope::lemma_inlined_gathers(cx, st, stmts, body, j);
        assert(syntax::stmt_below(body[k - 1], cx.ast.tree().kinds().len()));
        let before = list_stmts(cx.ast, body, j);
        let part = inner_part(cx.ast)(body[k - 1]);
        match body[k - 1] {
            QueryStmt::Implicit(node) => {
                scope::lemma_scanned_gathers(cx, s1, q1, node, None);
                lemma_inlined(cx, st, stmts, body, j, parts);
                lemma_scanned(cx, s1, q1, node, None, parts + before);
            },
            QueryStmt::Bind(lhs, rhs) => {
                scope::lemma_hoist_within_gathers(cx, s1, q1, rhs);
                lemma_inlined(cx, st, stmts, body, j, parts);
                let (s2, q2) = collecting::hoist_within(cx, s1, q1, rhs);
                let q3 = collecting::inlined(cx, st, stmts, body, k).1;
                lemma_named(cx, s1, q1, lhs, rhs, parts + before, q3.last());
                assert(q3 =~= q2.push(q3.last()));
            },
            QueryStmt::Negation(node) => {
                assert(collecting::inlined(cx, st, stmts, body, k).0.reports.len()
                    == s1.reports.len() + 1);
            },
        }
        assert(parts + before + with_nested(cx.ast, part) =~= parts + list_stmts(
            cx.ast,
            body,
            k,
        ));
    }
}

/// The prefixes a statement constrains its variable by.
pub open spec fn prefix_of(ast: Ast) -> spec_fn(QueryStmt) -> Seq<(Symbol, NodeId)> {
    |stmt: QueryStmt|
        match stmt {
            QueryStmt::Bind(lhs, rhs) => match (ast.kind(lhs), ast.kind(rhs)) {
                (ExprKind::Var(symbol), ExprKind::Prefix(_)) => seq![(symbol, rhs)],
                _ => Seq::empty(),
            },
            _ => Seq::empty(),
        }
}

#[verifier::rlimit(40)]
proof fn lemma_stmt(cx: Cx, st: St, stmts: Seq<Stmt>, stmt: QueryStmt, parts: Seq<Part>)
    requires
        cx.ast.wf(),
        syntax::stmt_below(stmt, cx.ast.tree().kinds().len()),
        scope::within(st, 0),
        all_ask(cx.ast, st.hoisted, stmts, parts),
        collecting::collected_stmt(cx, st, stmts, stmt).0.sealed,
        collecting::collected_stmt(cx, st, stmts, stmt).0.reports.len() == st.reports.len(),
    ensures
        ({
            let (after, more) = collecting::collected_stmt(cx, st, stmts, stmt);
            told(cx, st, after, more, parts, list_stmt(cx.ast, stmt)) && after.constraints
                == st.constraints + prefix_of(cx.ast)(stmt)
        }),
{
    let ast = cx.ast;
    let (after, more) = collecting::collected_stmt(cx, st, stmts, stmt);
    assert(parts + Seq::<Part>::empty() =~= parts);
    assert(st.constraints + Seq::<(Symbol, NodeId)>::empty() =~= st.constraints);
    match stmt {
        QueryStmt::Implicit(node) => lemma_scanned(cx, st, stmts, node, None, parts),
        QueryStmt::Bind(lhs, rhs) => {
            assert(syntax::children_below(ast.tree().kinds()[rhs.0 as int], rhs.0 as nat));
            match ast.kind(rhs) {
                ExprKind::Subquery(query) => {
                    assert(collecting::shadowed(cx, query.body@, rhs) is None);
                    assert forall|i: int| 0 <= i < query.body@.len() implies syntax::stmt_below(
                        #[trigger] query.body@[i],
                        ast.tree().kinds().len(),
                    ) by {
                        assert(syntax::stmt_below(query.body@[i], rhs.0 as nat));
                    }
                    lemma_inlined(cx, st, stmts, query.body@, query.body@.len(), parts);
                    let (s1, q1) = collecting::inlined(
                        cx,
                        st,
                        stmts,
                        query.body@,
                        query.body@.len(),
                    );
                    let before = list_stmts(ast, query.body@, query.body@.len());
                    let part = Part::Name(lhs, query.head);
                    lemma_one_more(ast, s1.hoisted, q1, parts + before, more.last(), part);
                    assert(more =~= q1.push(more.last()));
                    assert((parts + before).push(part) =~= parts + list_stmt(ast, stmt));
                },
                kind => if kind is Fact || kind is Disjunction || kind is Never {
                    lemma_scanned(cx, st, stmts, rhs, variable(ast, lhs), parts);
                } else if ast.constant(rhs) {
                    lemma_folded(cx, st, lhs, rhs);
                } else if kind is Prefix {
                    let part = Part::Begin(lhs);
                    lemma_one_more(ast, st.hoisted, stmts, parts, more.last(), part);
                    assert(parts.push(part) =~= parts + with_nested(ast, part));
                    if let ExprKind::Var(symbol) = ast.kind(lhs) {
                        assert(st.constraints.push((symbol, rhs)) =~= st.constraints + seq![
                            (symbol, rhs),
                        ]);
                    }
                } else {
                    assert(model::names_a_location(cx, rhs));
                    let q1 = collecting::hoist_within(cx, st, stmts, rhs).1;
                    lemma_named(cx, st, stmts, lhs, rhs, parts, more.last());
                    assert(more =~= q1.push(more.last()));
                },
            }
        },
        QueryStmt::Negation(node) => {
            let (s1, found) = collecting::negated(cx, st, node);
            lemma_generator(cx, st, node, None);
            lemma_generator_constraints(cx, st, node, None);
            let part = Part::Deny(patterns_of(ast, node));
            assert(found is Some);
            lemma_one_more(ast, s1.hoisted, stmts, parts, Stmt::Negate(found->0), part);
            assert(parts.push(part) =~= parts + with_nested(ast, part));
        },
    }
}

/// Folding a constant hoists nothing and constrains nothing.
proof fn lemma_folded(cx: Cx, st: St, lhs: NodeId, rhs: NodeId)
    ensures
        ({
            let after = model::bind_pattern(cx, st, lhs, Slot::Const(rhs));
            after.hoisted == st.hoisted && after.constraints == st.constraints
        }),
{
    running::lemma_bind_only(cx, st, lhs, Slot::Const(rhs));
}

proof fn lemma_body(cx: Cx, st: St, body: Seq<QueryStmt>, k: nat)
    requires
        cx.ast.wf(),
        k <= body.len(),
        forall|i: int|
            0 <= i < body.len() ==> syntax::stmt_below(
                #[trigger] body[i],
                cx.ast.tree().kinds().len(),
            ),
        scope::within(st, 0),
        collecting::collected_body(cx, st, body, k).0.sealed,
        collecting::collected_body(cx, st, body, k).0.reports.len() == st.reports.len(),
    ensures
        ({
            let (after, more) = collecting::collected_body(cx, st, body, k);
            &&& all_ask(cx.ast, after.hoisted, more, list_body(cx.ast, body, k))
            &&& after.constraints == st.constraints + body.take(k as int).map_values(
                prefix_of(cx.ast),
            ).flatten_alt()
        }),
    decreases k,
{
    let said = body.take(k as int).map_values(prefix_of(cx.ast));
    if k > 0 {
        let j = (k - 1) as nat;
        let (s1, q1) = collecting::collected_body(cx, st, body, j);
        scope::lemma_body_gathers(cx, st, body, j);
        assert(syntax::stmt_below(body[k - 1], cx.ast.tree().kinds().len()));
        scope::lemma_stmt_gathers(cx, s1, q1, body[k - 1]);
        lemma_body(cx, st, body, j);
        lemma_stmt(cx, s1, q1, body[k - 1], list_body(cx.ast, body, j));
        let less = body.take(j as int).map_values(prefix_of(cx.ast));
        assert(said.drop_last() =~= less);
        assert(said.last() == prefix_of(cx.ast)(body[k - 1]));
        assert(st.constraints + less.flatten_alt() + said.last() =~= st.constraints
            + said.flatten_alt());
    } else {
        assert(st.constraints + Seq::<(Symbol, NodeId)>::empty() =~= st.constraints);
    }
}

/// Everything that was collected, with what is nested, and the prefixes.
proof fn lemma_collected(cx: Cx, st: St)
    requires
        cx.ast.wf(),
        scope::within(st, 0),
        collecting::collected(cx, st).1 is Some,
        collecting::collected(cx, st).0.sealed,
    ensures
        ({
            let query = cx.ast.root();
            let (after, found) = collecting::collected(cx, st);
            &&& all_ask(
                cx.ast,
                after.hoisted,
                found->0.stmts,
                list_body(cx.ast, query.body@, query.body@.len()) + list_at(cx.ast, query.head),
            )
            &&& after.constraints == st.constraints + query.body@.map_values(
                prefix_of(cx.ast),
            ).flatten_alt()
        }),
{
    let query = cx.ast.root();
    let (s1, q1) = collecting::collected_body(cx, st, query.body@, query.body@.len());
    scope::lemma_body_gathers(cx, st, query.body@, query.body@.len());
    let (s2, q2) = collecting::hoist_node(cx, s1, q1, query.head);
    scope::lemma_hoist_node_gathers(cx, s1, q1, query.head);
    let stmts = collecting::all_oriented(cx, q2);
    let (s3, claims) = collecting::claimed(cx, s2, stmts, stmts.len());
    scope::lemma_claimed_gathers(cx, s2, stmts, stmts.len());
    let (s4, deps) = collecting::deps_of(cx, s3, claims, stmts, stmts.len());
    scope::lemma_deps_gather(cx, s3, claims, stmts, stmts.len());
    let known = collecting::all_captures(deps, deps.len()) + collecting::folded(
        s4.bindings,
        s4.bindings.len(),
    );
    let s5 = collecting::negated_wildcards(s4, known, stmts, deps, stmts.len());
    scope::lemma_negated_wildcards_gather(s4, known, stmts, deps, stmts.len());
    scope::lemma_scan_head_gathers(cx, s5, query.head, Occurs::none());
    gathering::lemma_claimed(cx, s2, stmts, stmts.len());
    gathering::lemma_deps(cx, s3, claims, stmts, stmts.len());
    gathering::lemma_negated_wildcards(s4, known, stmts, deps, stmts.len());
    gathering::lemma_scan_head(cx, s5, query.head, Occurs::none());
    let after = collecting::collected(cx, st).0;
    assert(query.body@.take(query.body@.len() as int) =~= query.body@);
    lemma_body(cx, st, query.body@, query.body@.len());
    let parts = list_body(cx.ast, query.body@, query.body@.len());
    lemma_at(cx, s1, q1, query.head, parts);
    let all = parts + list_at(cx.ast, query.head);
    let bound = collecting::bindable(cx, q2, q2.len());
    assert forall|i: int| 0 <= i < stmts.len() implies asks(
        cx.ast,
        s2.hoisted,
        #[trigger] stmts[i],
        all[i],
    ) by {
        assert(asks(cx.ast, s2.hoisted, q2[i], all[i]));
        assert(stmts[i] == collecting::oriented(cx, bound, q2[i]));
    }
}

// ---- what is listed is what the tree has ------------------------------------

/// Whether a part is a statement's own.
spec fn is_own() -> spec_fn(Part) -> bool {
    |part: Part| !(part is Nested)
}

/// Every part is nested.
spec fn all_nested(parts: Seq<Part>) -> bool {
    forall|i: int| 0 <= i < parts.len() ==> (#[trigger] parts[i]) is Nested
}

proof fn lemma_nested_dropped(parts: Seq<Part>)
    requires
        all_nested(parts),
    ensures
        parts.filter(is_own()) == Seq::<Part>::empty(),
    decreases parts.len(),
{
    reveal(Seq::filter);
    if parts.len() > 0 {
        let less = parts.drop_last();
        assert forall|i: int| 0 <= i < less.len() implies (#[trigger] less[i]) is Nested by {
            assert(less[i] == parts[i]);
        }
        lemma_nested_dropped(less);
        assert(parts[parts.len() - 1] is Nested);
    }
}

proof fn lemma_all_nested_more(a: Seq<Part>, b: Seq<Part>)
    requires
        all_nested(a),
        all_nested(b),
    ensures
        all_nested(a + b),
{
    let all = a + b;
    assert forall|i: int| 0 <= i < all.len() implies (#[trigger] all[i]) is Nested by {
        if i < a.len() {
            assert(all[i] == a[i]);
        } else {
            assert(all[i] == b[i - a.len()]);
        }
    }
}

proof fn lemma_within_nested(ast: Ast, node: NodeId)
    ensures
        all_nested(list_within(ast, node)),
    decreases node.0, 1nat, 0nat,
{
    match ast.kind(node) {
        ExprKind::Record(fields) => lemma_fields_nested(ast, node, fields@, fields@.len()),
        ExprKind::Access(_, base) => if base.0 < node.0 {
            lemma_at_nested(ast, base);
        },
        ExprKind::Select(_, base) => if base.0 < node.0 {
            lemma_at_nested(ast, base);
        },
        _ => {},
    }
}

proof fn lemma_fields_nested(ast: Ast, node: NodeId, fields: Seq<(Symbol, NodeId)>, k: nat)
    ensures
        all_nested(list_fields(ast, node, fields, k)),
    decreases node.0, 0nat, k,
{
    if k > 0 {
        lemma_fields_nested(ast, node, fields, (k - 1) as nat);
        let before = list_fields(ast, node, fields, (k - 1) as nat);
        if fields[k - 1].1.0 < node.0 {
            lemma_at_nested(ast, fields[k - 1].1);
            lemma_all_nested_more(before, list_at(ast, fields[k - 1].1));
        } else {
            assert(before + Seq::<Part>::empty() =~= before);
        }
    }
}

proof fn lemma_at_nested(ast: Ast, node: NodeId)
    ensures
        all_nested(list_at(ast, node)),
    decreases node.0, 2nat, 0nat,
{
    match ast.kind(node) {
        ExprKind::Fact(_, key) => if key.0 < node.0 {
            lemma_within_nested(ast, key);
        },
        _ => lemma_within_nested(ast, node),
    }
}

proof fn lemma_keys_nested(ast: Ast, nodes: Seq<NodeId>, k: nat)
    ensures
        all_nested(list_keys(ast, nodes, k)),
    decreases k,
{
    if k > 0 {
        lemma_keys_nested(ast, nodes, (k - 1) as nat);
        let key = ast.kind(nodes[k - 1])->Fact_1;
        lemma_within_nested(ast, key);
        lemma_all_nested_more(list_keys(ast, nodes, (k - 1) as nat), list_within(ast, key));
    }
}

proof fn lemma_part_own(ast: Ast, part: Part)
    requires
        !(part is Nested),
    ensures
        with_nested(ast, part).filter(is_own()) == seq![part],
{
    reveal(Seq::filter);
    let before = with_nested(ast, part).drop_last();
    match part {
        Part::Range(nodes, _) => lemma_keys_nested(ast, nodes, nodes.len()),
        Part::Name(_, value) => lemma_within_nested(ast, value),
        _ => {},
    }
    assert(with_nested(ast, part) =~= before.push(part));
    assert(all_nested(before));
    lemma_nested_dropped(before);
    assert(Seq::<Part>::empty().push(part) =~= seq![part]);
}

proof fn lemma_stmts_own(ast: Ast, body: Seq<QueryStmt>, k: nat)
    requires
        k <= body.len(),
    ensures
        list_stmts(ast, body, k).filter(is_own()) == body.take(k as int).map_values(
            inner_part(ast),
        ),
    decreases k,
{
    reveal(Seq::filter);
    let all = body.take(k as int).map_values(inner_part(ast));
    if k > 0 {
        let j = (k - 1) as nat;
        lemma_stmts_own(ast, body, j);
        let part = inner_part(ast)(body[k - 1]);
        lemma_part_own(ast, part);
        Seq::<Part>::filter_distributes_over_add(
            list_stmts(ast, body, j),
            with_nested(ast, part),
            is_own(),
        );
        assert(all =~= body.take(j as int).map_values(inner_part(ast)) + seq![part]);
    } else {
        assert(all =~= Seq::<Part>::empty());
    }
}

proof fn lemma_stmt_own(ast: Ast, stmt: QueryStmt)
    ensures
        list_stmt(ast, stmt).filter(is_own()) == parts_of(ast)(stmt),
{
    reveal(Seq::filter);
    let parts = parts_of(ast)(stmt);
    let subquery = stmt matches QueryStmt::Bind(_, rhs) && ast.kind(rhs) is Subquery;
    if subquery {
        if let QueryStmt::Bind(lhs, rhs) = stmt {
            if let ExprKind::Subquery(query) = ast.kind(rhs) {
                let n = query.body@.len();
                lemma_stmts_own(ast, query.body@, n);
                assert(query.body@.take(n as int) =~= query.body@);
                let before = list_stmts(ast, query.body@, n);
                let last = Part::Name(lhs, query.head);
                assert(list_stmt(ast, stmt).drop_last() =~= before);
                assert(list_stmt(ast, stmt).last() == last);
            }
        }
    } else if parts.len() == 1 {
        lemma_part_own(ast, parts[0]);
        assert(seq![parts[0]] =~= parts);
    } else {
        assert(parts =~= Seq::<Part>::empty());
        assert(list_stmt(ast, stmt) =~= Seq::<Part>::empty());
    }
}

proof fn lemma_body_own(ast: Ast, body: Seq<QueryStmt>, k: nat)
    requires
        k <= body.len(),
    ensures
        list_body(ast, body, k).filter(is_own()) == body_parts(ast, body.take(k as int)),
    decreases k,
{
    reveal(Seq::filter);
    let said = body.take(k as int).map_values(parts_of(ast));
    if k > 0 {
        let j = (k - 1) as nat;
        lemma_body_own(ast, body, j);
        lemma_stmt_own(ast, body[k - 1]);
        Seq::<Part>::filter_distributes_over_add(
            list_body(ast, body, j),
            list_stmt(ast, body[k - 1]),
            is_own(),
        );
        assert(said.drop_last() =~= body.take(j as int).map_values(parts_of(ast)));
        assert(said.last() == parts_of(ast)(body[k - 1]));
    }
}

proof fn lemma_written(
    ast: Ast,
    hoisted: Seq<(NodeId, Symbol)>,
    stmts: Seq<Stmt>,
    parts: Seq<Part>,
)
    requires
        all_ask(ast, hoisted, stmts, parts),
    ensures
        all_ask(ast, hoisted, stmts.filter(is_written()), parts.filter(is_own())),
    decreases stmts.len(),
{
    reveal(Seq::filter);
    if stmts.len() > 0 {
        let (less, fewer) = (stmts.drop_last(), parts.drop_last());
        assert forall|i: int| 0 <= i < less.len() implies asks(
            ast,
            hoisted,
            #[trigger] less[i],
            fewer[i],
        ) by {
            assert(less[i] == stmts[i]);
        }
        lemma_written(ast, hoisted, less, fewer);
        assert(asks(ast, hoisted, stmts[stmts.len() - 1], parts[stmts.len() - 1]));
        if is_written()(stmts.last()) {
            lemma_one_more(
                ast,
                hoisted,
                less.filter(is_written()),
                fewer.filter(is_own()),
                stmts.last(),
                parts.last(),
            );
        }
    }
}

/// Every statement of a query is collected, in order, and nothing else is: the statements that
/// are written are what the body's statements ask for, one for one. A disjunction ranges over
/// every branch that is a fact pattern, however many there are; a negation denies every one of
/// them; and a subquery is all its statements. The prefixes that variables are held to are
/// those of the body.
pub proof fn law_every_statement_is_collected(cx: Cx, st: St)
    requires
        cx.ast.wf(),
        scope::within(st, 0),
        collecting::collected(cx, st).1 is Some,
        collecting::collected(cx, st).0.sealed,
    ensures
        ({
            let body = cx.ast.root().body@;
            let (after, found) = collecting::collected(cx, st);
            &&& all_ask(
                cx.ast,
                after.hoisted,
                found->0.stmts.filter(is_written()),
                body_parts(cx.ast, body),
            )
            &&& after.constraints == st.constraints + body.map_values(
                prefix_of(cx.ast),
            ).flatten_alt()
        }),
{
    let query = cx.ast.root();
    let n = query.body@.len();
    let (after, found) = collecting::collected(cx, st);
    lemma_collected(cx, st);
    let (own, nested) = (list_body(cx.ast, query.body@, n), list_at(cx.ast, query.head));
    lemma_written(cx.ast, after.hoisted, found->0.stmts, own + nested);
    Seq::<Part>::filter_distributes_over_add(own, nested, is_own());
    lemma_at_nested(cx.ast, query.head);
    lemma_nested_dropped(nested);
    lemma_body_own(cx.ast, query.body@, n);
    assert(query.body@.take(n as int) =~= query.body@);
    assert(own.filter(is_own()) + Seq::<Part>::empty() =~= own.filter(is_own()));
}

// ---- nested patterns --------------------------------------------------------

proof fn lemma_in_both(a: Seq<Part>, b: Seq<Part>, part: Part)
    ensures
        (a + b).contains(part) == (a.contains(part) || b.contains(part)),
{
    let all = a + b;
    if a.contains(part) {
        let i = choose|i: int| 0 <= i < a.len() && a[i] == part;
        assert(all[i] == part);
    }
    if b.contains(part) {
        let i = choose|i: int| 0 <= i < b.len() && b[i] == part;
        assert(all[a.len() + i] == part);
    }
    if all.contains(part) {
        let i = choose|i: int| 0 <= i < all.len() && all[i] == part;
        if i < a.len() {
            assert(a[i] == part);
        } else {
            assert(b[i - a.len()] == part);
        }
    }
}

proof fn lemma_in_push(a: Seq<Part>, last: Part, part: Part)
    ensures
        a.push(last).contains(part) == (a.contains(part) || last == part),
{
    assert(a.push(last) =~= a + seq![last]);
    lemma_in_both(a, seq![last], part);
    assert(seq![last][0] == last);
}

/// A fact pattern at a node: the node itself, or one inside it.
pub open spec fn at_or_inside(ast: Ast, node: NodeId, pattern: NodeId) -> bool {
    node == pattern || inside(ast, node, pattern) || (ast.kind(node) matches ExprKind::Fact(_, key)
        && key.0 < node.0 && inside(ast, key, pattern))
}

/// What is listed of a node is what stands inside it.
proof fn lemma_listed_within(ast: Ast, node: NodeId, pattern: NodeId)
    requires
        ast.wf(),
        ast.has(node),
        ast.kind(pattern) is Fact,
    ensures
        list_within(ast, node).contains(Part::Nested(pattern)) == inside(ast, node, pattern),
    decreases node.0, 1nat, 0nat,
{
    assert(syntax::children_below(ast.tree().kinds()[node.0 as int], node.0 as nat));
    let part = Part::Nested(pattern);
    match ast.kind(node) {
        ExprKind::Record(fields) => {
            lemma_listed_fields(ast, node, fields@, fields@.len(), pattern);
            if inside(ast, node, pattern) {
                let inner = choose|inner: NodeId| #[trigger]
                    piece(ast, node, inner) && inner.0 < node.0 && at_or_inside(
                        ast,
                        inner,
                        pattern,
                    );
                assert(piece(ast, node, inner) && at_or_inside(ast, inner, pattern));
                let i = choose|i: int| 0 <= i < fields@.len() && fields@[i].1 == inner;
                assert(fields@[i].1 == inner);
            }
            if list_within(ast, node).contains(part) {
                let i = choose|i: int|
                    0 <= i < fields@.len() && at_or_inside(
                        ast,
                        (#[trigger] fields@[i]).1,
                        pattern,
                    );
                assert(piece(ast, node, fields@[i].1));
            }
        },
        ExprKind::Access(_, base) => {
            lemma_listed_at(ast, base, pattern);
            assert(piece(ast, node, base));
        },
        ExprKind::Select(_, base) => {
            lemma_listed_at(ast, base, pattern);
            assert(piece(ast, node, base));
        },
        _ => {},
    }
}

proof fn lemma_listed_fields(
    ast: Ast,
    node: NodeId,
    fields: Seq<(Symbol, NodeId)>,
    k: nat,
    pattern: NodeId,
)
    requires
        ast.wf(),
        ast.has(node),
        ast.kind(pattern) is Fact,
        k <= fields.len(),
        forall|i: int| 0 <= i < fields.len() ==> (#[trigger] fields[i]).1.0 < node.0,
    ensures
        list_fields(ast, node, fields, k).contains(Part::Nested(pattern)) <==> exists|i: int|
            0 <= i < k && at_or_inside(ast, (#[trigger] fields[i]).1, pattern),
    decreases node.0, 0nat, k,
{
    if k > 0 {
        let j = (k - 1) as nat;
        lemma_listed_fields(ast, node, fields, j, pattern);
        assert(fields[k - 1].1.0 < node.0);
        lemma_listed_at(ast, fields[k - 1].1, pattern);
        lemma_in_both(
            list_fields(ast, node, fields, j),
            list_at(ast, fields[k - 1].1),
            Part::Nested(pattern),
        );
        if exists|i: int| 0 <= i < k && at_or_inside(ast, (#[trigger] fields[i]).1, pattern) {
            let i = choose|i: int|
                0 <= i < k && at_or_inside(ast, (#[trigger] fields[i]).1, pattern);
            assert(i < j || i == k - 1);
        }
    }
}

proof fn lemma_listed_at(ast: Ast, node: NodeId, pattern: NodeId)
    requires
        ast.wf(),
        ast.has(node),
        ast.kind(pattern) is Fact,
    ensures
        list_at(ast, node).contains(Part::Nested(pattern)) == at_or_inside(ast, node, pattern),
    decreases node.0, 2nat, 0nat,
{
    assert(syntax::children_below(ast.tree().kinds()[node.0 as int], node.0 as nat));
    match ast.kind(node) {
        ExprKind::Fact(_, key) => {
            lemma_listed_within(ast, key, pattern);
            lemma_in_push(list_within(ast, key), Part::Nested(node), Part::Nested(pattern));
            assert(!inside(ast, node, pattern));
        },
        _ => lemma_listed_within(ast, node, pattern),
    }
}

proof fn lemma_listed_keys(ast: Ast, nodes: Seq<NodeId>, k: nat, pattern: NodeId)
    requires
        ast.wf(),
        ast.kind(pattern) is Fact,
        k <= nodes.len(),
        forall|i: int|
            0 <= i < nodes.len() ==> ast.has(#[trigger] nodes[i]) && ast.kind(nodes[i]) is Fact,
    ensures
        list_keys(ast, nodes, k).contains(Part::Nested(pattern)) <==> exists|i: int|
            0 <= i < k && inside(ast, ast.kind(#[trigger] nodes[i])->Fact_1, pattern),
    decreases k,
{
    if k > 0 {
        let j = (k - 1) as nat;
        lemma_listed_keys(ast, nodes, j, pattern);
        let node = nodes[k - 1];
        assert(ast.has(node) && ast.kind(node) is Fact);
        assert(syntax::children_below(ast.tree().kinds()[node.0 as int], node.0 as nat));
        let key = ast.kind(node)->Fact_1;
        lemma_listed_within(ast, key, pattern);
        lemma_in_both(list_keys(ast, nodes, j), list_within(ast, key), Part::Nested(pattern));
        if exists|i: int|
            0 <= i < k && inside(ast, ast.kind(#[trigger] nodes[i])->Fact_1, pattern) {
            let i = choose|i: int|
                0 <= i < k && inside(ast, ast.kind(#[trigger] nodes[i])->Fact_1, pattern);
            assert(i < j || i == k - 1);
        }
    }
}

/// A part of a statement whose nodes the tree has.
spec fn had(ast: Ast, part: Part) -> bool {
    match part {
        Part::Range(nodes, _) => forall|i: int|
            0 <= i < nodes.len() ==> ast.has(#[trigger] nodes[i]) && ast.kind(nodes[i]) is Fact,
        Part::Name(_, value) => ast.has(value),
        Part::Nested(_) => false,
        _ => true,
    }
}

/// Some node that a part reads in has a pattern inside.
pub open spec fn part_nests(ast: Ast, part: Part, pattern: NodeId) -> bool {
    exists|node: NodeId| #[trigger] reads_in(ast, part, node) && inside(ast, node, pattern)
}

proof fn lemma_listed_part(ast: Ast, part: Part, pattern: NodeId)
    requires
        ast.wf(),
        ast.kind(pattern) is Fact,
        had(ast, part),
    ensures
        with_nested(ast, part).contains(Part::Nested(pattern)) == part_nests(ast, part, pattern),
{
    let nested = Part::Nested(pattern);
    match part {
        Part::Range(nodes, _) => {
            lemma_listed_keys(ast, nodes, nodes.len(), pattern);
            lemma_in_push(list_keys(ast, nodes, nodes.len()), part, nested);
            if part_nests(ast, part, pattern) {
                let node = choose|node: NodeId| #[trigger]
                    reads_in(ast, part, node) && inside(ast, node, pattern);
                let i = choose|i: int|
                    0 <= i < nodes.len() && (ast.kind(#[trigger] nodes[i]) matches ExprKind::Fact(
                        _,
                        key,
                    ) && key == node);
                assert(inside(ast, ast.kind(nodes[i])->Fact_1, pattern));
            }
            if list_keys(ast, nodes, nodes.len()).contains(nested) {
                let i = choose|i: int|
                    0 <= i < nodes.len() && inside(
                        ast,
                        ast.kind(#[trigger] nodes[i])->Fact_1,
                        pattern,
                    );
                assert(reads_in(ast, part, ast.kind(nodes[i])->Fact_1));
            }
        },
        Part::Name(_, value) => {
            lemma_listed_within(ast, value, pattern);
            lemma_in_push(list_within(ast, value), part, nested);
            assert(reads_in(ast, part, value));
        },
        _ => {
            lemma_in_push(Seq::empty(), part, nested);
        },
    }
}

proof fn lemma_range_had(ast: Ast, node: NodeId, row: Option<Symbol>)
    requires
        ast.wf(),
        ast.has(node),
    ensures
        had(ast, Part::Range(patterns_of(ast, node), row)),
{
    lemma_patterns_had(ast, node);
    let nodes = patterns_of(ast, node);
    if let ExprKind::Disjunction(branches) = ast.kind(node) {
        assert forall|i: int| 0 <= i < nodes.len() implies ast.kind(#[trigger] nodes[i]) is Fact by {
            branches@.lemma_filter_pred(is_pattern(ast), i);
        }
    }
}

proof fn lemma_listed_stmts(ast: Ast, body: Seq<QueryStmt>, k: nat, pattern: NodeId)
    requires
        ast.wf(),
        ast.kind(pattern) is Fact,
        k <= body.len(),
        forall|i: int|
            0 <= i < body.len() ==> syntax::stmt_below(
                #[trigger] body[i],
                ast.tree().kinds().len(),
            ),
    ensures
        list_stmts(ast, body, k).contains(Part::Nested(pattern)) <==> exists|i: int|
            0 <= i < k && part_nests(ast, inner_part(ast)(#[trigger] body[i]), pattern),
    decreases k,
{
    if k > 0 {
        let j = (k - 1) as nat;
        lemma_listed_stmts(ast, body, j, pattern);
        assert(syntax::stmt_below(body[k - 1], ast.tree().kinds().len()));
        let part = inner_part(ast)(body[k - 1]);
        if let QueryStmt::Implicit(node) = body[k - 1] {
            lemma_range_had(ast, node, None);
        }
        lemma_listed_part(ast, part, pattern);
        lemma_in_both(list_stmts(ast, body, j), with_nested(ast, part), Part::Nested(pattern));
        if exists|i: int|
            0 <= i < k && part_nests(ast, inner_part(ast)(#[trigger] body[i]), pattern) {
            let i = choose|i: int|
                0 <= i < k && part_nests(ast, inner_part(ast)(#[trigger] body[i]), pattern);
            assert(i < j || i == k - 1);
        }
    }
}

/// Some node that a statement reads in has a pattern inside.
pub open spec fn stmt_nests(ast: Ast, stmt: QueryStmt, pattern: NodeId) -> bool {
    exists|node: NodeId| #[trigger] stmt_reads_in(ast, stmt, node) && inside(ast, node, pattern)
}

proof fn lemma_listed_stmt(ast: Ast, stmt: QueryStmt, pattern: NodeId)
    requires
        ast.wf(),
        ast.kind(pattern) is Fact,
        syntax::stmt_below(stmt, ast.tree().kinds().len()),
    ensures
        list_stmt(ast, stmt).contains(Part::Nested(pattern)) == stmt_nests(ast, stmt, pattern),
{
    let nested = Part::Nested(pattern);
    let parts = parts_of(ast)(stmt);
    let subquery = stmt matches QueryStmt::Bind(_, rhs) && ast.kind(rhs) is Subquery;
    if subquery {
        if let QueryStmt::Bind(lhs, rhs) = stmt {
            if let ExprKind::Subquery(query) = ast.kind(rhs) {
                let body = query.body@;
                assert(syntax::children_below(ast.tree().kinds()[rhs.0 as int], rhs.0 as nat));
                assert forall|i: int| 0 <= i < body.len() implies syntax::stmt_below(
                    #[trigger] body[i],
                    ast.tree().kinds().len(),
                ) by {
                    assert(syntax::stmt_below(body[i], rhs.0 as nat));
                }
                lemma_listed_stmts(ast, body, body.len(), pattern);
                lemma_in_push(
                    list_stmts(ast, body, body.len()),
                    Part::Name(lhs, query.head),
                    nested,
                );
                if stmt_nests(ast, stmt, pattern) {
                    let node = choose|node: NodeId| #[trigger]
                        stmt_reads_in(ast, stmt, node) && inside(ast, node, pattern);
                    let i = choose|i: int|
                        0 <= i < body.len() && reads_in(
                            ast,
                            inner_part(ast)(#[trigger] body[i]),
                            node,
                        );
                    assert(part_nests(ast, inner_part(ast)(body[i]), pattern));
                }
                if list_stmts(ast, body, body.len()).contains(nested) {
                    let i = choose|i: int|
                        0 <= i < body.len() && part_nests(
                            ast,
                            inner_part(ast)(#[trigger] body[i]),
                            pattern,
                        );
                    let node = choose|node: NodeId| #[trigger]
                        reads_in(ast, inner_part(ast)(body[i]), node) && inside(
                            ast,
                            node,
                            pattern,
                        );
                    assert(stmt_reads_in(ast, stmt, node));
                }
            }
        }
    } else {
        match stmt {
            QueryStmt::Implicit(node) => lemma_range_had(ast, node, None),
            QueryStmt::Bind(lhs, rhs) => lemma_range_had(ast, rhs, variable(ast, lhs)),
            _ => {},
        }
        if parts.len() == 1 {
            lemma_listed_part(ast, parts[0], pattern);
            if stmt_nests(ast, stmt, pattern) {
                let node = choose|node: NodeId| #[trigger]
                    stmt_reads_in(ast, stmt, node) && inside(ast, node, pattern);
                assert(reads_in(ast, parts[0], node));
            }
            if part_nests(ast, parts[0], pattern) {
                let node = choose|node: NodeId| #[trigger]
                    reads_in(ast, parts[0], node) && inside(ast, node, pattern);
                assert(stmt_reads_in(ast, stmt, node));
            }
        } else {
            assert(parts.len() == 0);
            assert(list_stmt(ast, stmt) =~= Seq::<Part>::empty());
        }
    }
}

proof fn lemma_listed_body(ast: Ast, body: Seq<QueryStmt>, k: nat, pattern: NodeId)
    requires
        ast.wf(),
        ast.kind(pattern) is Fact,
        k <= body.len(),
        forall|i: int|
            0 <= i < body.len() ==> syntax::stmt_below(
                #[trigger] body[i],
                ast.tree().kinds().len(),
            ),
    ensures
        list_body(ast, body, k).contains(Part::Nested(pattern)) <==> exists|i: int|
            0 <= i < k && stmt_nests(ast, #[trigger] body[i], pattern),
    decreases k,
{
    if k > 0 {
        let j = (k - 1) as nat;
        lemma_listed_body(ast, body, j, pattern);
        assert(syntax::stmt_below(body[k - 1], ast.tree().kinds().len()));
        lemma_listed_stmt(ast, body[k - 1], pattern);
        lemma_in_both(
            list_body(ast, body, j),
            list_stmt(ast, body[k - 1]),
            Part::Nested(pattern),
        );
        if exists|i: int| 0 <= i < k && stmt_nests(ast, #[trigger] body[i], pattern) {
            let i = choose|i: int| 0 <= i < k && stmt_nests(ast, #[trigger] body[i], pattern);
            assert(i < j || i == k - 1);
        }
    }
}

/// Whether a query has a fact pattern inside another, in a value or in its head.
pub open spec fn nests(ast: Ast, pattern: NodeId) -> bool {
    &&& ast.kind(pattern) is Fact
    &&& at_or_inside(ast, ast.root().head, pattern) || exists|i: int|
        0 <= i < ast.root().body@.len() && stmt_nests(
            ast,
            #[trigger] ast.root().body@[i],
            pattern,
        )
}

/// A statement ranges over one nested pattern, and gives the row it finds the name the pattern
/// is read by.
pub open spec fn ranges_over(
    ast: Ast,
    hoisted: Seq<(NodeId, Symbol)>,
    stmt: Stmt,
    pattern: NodeId,
) -> bool {
    asks(ast, hoisted, stmt, Part::Nested(pattern))
}

/// Every fact pattern inside another, in a value or in the head is ranged over on its own, and
/// every statement that is not written ranges over one of those.
pub proof fn law_every_nested_pattern_is_ranged_over(cx: Cx, st: St)
    requires
        cx.ast.wf(),
        scope::within(st, 0),
        collecting::collected(cx, st).1 is Some,
        collecting::collected(cx, st).0.sealed,
    ensures
        ({
            let (after, found) = collecting::collected(cx, st);
            let stmts = found->0.stmts;
            &&& forall|pattern: NodeId| #[trigger]
                nests(cx.ast, pattern) ==> exists|i: int|
                    0 <= i < stmts.len() && ranges_over(
                        cx.ast,
                        after.hoisted,
                        #[trigger] stmts[i],
                        pattern,
                    )
            &&& forall|i: int|
                0 <= i < stmts.len() && !is_written()(#[trigger] stmts[i]) ==> exists|
                    pattern: NodeId,
                | #[trigger]
                    nests(cx.ast, pattern) && ranges_over(
                        cx.ast,
                        after.hoisted,
                        stmts[i],
                        pattern,
                    )
        }),
{
    let ast = cx.ast;
    let query = ast.root();
    let body = query.body@;
    let (after, found) = collecting::collected(cx, st);
    let stmts = found->0.stmts;
    lemma_collected(cx, st);
    let (own, nested) = (list_body(ast, body, body.len()), list_at(ast, query.head));
    let all = own + nested;
    assert forall|pattern: NodeId| #[trigger] nests(ast, pattern) implies exists|i: int|
        0 <= i < stmts.len() && ranges_over(
            ast,
            after.hoisted,
            #[trigger] stmts[i],
            pattern,
        ) by {
        let part = Part::Nested(pattern);
        lemma_listed_body(ast, body, body.len(), pattern);
        lemma_listed_at(ast, query.head, pattern);
        lemma_in_both(own, nested, part);
        let i = choose|i: int| 0 <= i < all.len() && all[i] == part;
        assert(asks(ast, after.hoisted, stmts[i], all[i]));
        assert(ranges_over(ast, after.hoisted, stmts[i], pattern));
    }
    assert forall|i: int| 0 <= i < stmts.len() && !is_written()(#[trigger] stmts[i]) implies exists|
        pattern: NodeId,
    | #[trigger] nests(ast, pattern) && ranges_over(ast, after.hoisted, stmts[i], pattern) by {
        assert(asks(ast, after.hoisted, stmts[i], all[i]));
        assert(all[i] is Nested);
        let pattern = all[i]->Nested_0;
        assert(seq![pattern][0] == pattern);
        assert(ast.kind(pattern) is Fact);
        assert(all.contains(all[i]));
        lemma_in_both(own, nested, all[i]);
        lemma_listed_body(ast, body, body.len(), pattern);
        lemma_listed_at(ast, query.head, pattern);
        assert(nests(ast, pattern));
    }
}

/// A compiled query answers what its tree asks: what the statements mean that the tree's own
/// statements ask for, one for one and in order, together with those its nested patterns do.
/// No branch of a disjunction, no statement of a subquery, no denial, no prefix and no nested
/// pattern of the tree is left out, and nothing else is put in.
pub proof fn law_a_compiled_query_answers_what_its_tree_asks<S: FactStore>(
    job: Job,
    store: S,
    names: Names,
    reports: Seq<Report>,
    given: Option<Seq<usize>>,
    compiled: Compiled,
)
    requires
        laws::is_job_of(job, names, reports, given),
        flatten::outcome(job.w.cx.ast, job.w.cx.schema, names, reports, given).1 == Some(compiled),
        flatten::outcome(job.w.cx.ast, job.w.cx.schema, names, reports, given).0.sealed,
        compiled.nvars <= usize::MAX,
        job.w.cx.ast.wf(),
        typing::typed(job.w, job.kinds, job.st.bindings, job.stmts),
        running::peopled(job.w.cx, job.w.names),
        running::closed(job.w),
        running::reads(job.w, store),
        matching::well_typed(job.w.cx, job.w.names, store),
    ensures
        ({
            let ast = job.w.cx.ast;
            let body = ast.root().body@;
            let env = machine::unbound(compiled.nvars);
            let found = answers::answers(store, compiled.body, env, 0);
            let meant = reading::meant(
                job.w,
                job.stmts,
                job.order,
                running::found_in(job.st, env),
            );
            &&& found.error is None
            &&& found.rows.len() == meant.len()
            &&& forall|i: int|
                0 <= i < meant.len() ==> laws::says(
                    iter::projected(
                        store,
                        job.w.names,
                        #[trigger] found.rows[i],
                        compiled.head,
                    ),
                    reading::value(job.w, meant[i].sense, ast.root().head),
                )
            &&& all_ask(
                ast,
                job.st.hoisted,
                job.stmts.filter(is_written()),
                body_parts(ast, body),
            )
            &&& job.st.constraints == body.map_values(prefix_of(ast)).flatten_alt()
            &&& forall|pattern: NodeId| #[trigger]
                nests(ast, pattern) ==> exists|i: int|
                    0 <= i < job.stmts.len() && ranges_over(
                        ast,
                        job.st.hoisted,
                        #[trigger] job.stmts[i],
                        pattern,
                    )
            &&& forall|i: int|
                0 <= i < job.stmts.len() && !is_written()(#[trigger] job.stmts[i]) ==> exists|
                    pattern: NodeId,
                | #[trigger]
                    nests(ast, pattern) && ranges_over(
                        ast,
                        job.st.hoisted,
                        job.stmts[i],
                        pattern,
                    )
        }),
{
    let cx = job.w.cx;
    assert(Cx { ast: cx.ast, schema: cx.schema } == cx);
    let begun = flatten::beginning(names, reports);
    let (s1, found) = collecting::collected(cx, begun);
    laws::law_a_compiled_query_answers_what_it_means(job, store, names, reports, given, compiled);
    scope::lemma_collected_gathers(cx, begun);
    scope::lemma_safety(cx, s1, found->0, job.order);
    assert(job.st == s1);
    laws::lemma_clean(job);
    law_every_statement_is_collected(cx, begun);
    law_every_nested_pattern_is_ranged_over(cx, begun);
    let prefixes = cx.ast.root().body@.map_values(prefix_of(cx.ast)).flatten_alt();
    assert(Seq::<(Symbol, NodeId)>::empty() + prefixes =~= prefixes);
}

} // verus!
