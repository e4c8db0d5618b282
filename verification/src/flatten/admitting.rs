//! Which statements are collected and which are reported: a statement is reported if and only
//! if it is out of place, however many patterns it has.
use vstd::prelude::*;

use super::collecting;
use super::model;
use super::model::{Alt, Cx, St, Stmt};
use super::scope;
use super::telling;
use crate::schema::Symbol;
use crate::syntax;
use crate::syntax::{Ast, ExprKind, NodeId, Query, QueryStmt};

verus! {

// ---- what is in place -------------------------------------------------------

/// Whether a node is a fact pattern or `never`.
pub open spec fn is_range(ast: Ast, node: NodeId) -> bool {
    ast.kind(node) is Fact || ast.kind(node) is Never
}

/// Whether a statement can range over a node: a fact pattern, `never`, or any number of those
/// as alternatives.
pub open spec fn can_range(ast: Ast, node: NodeId) -> bool {
    match ast.kind(node) {
        ExprKind::Disjunction(branches) => forall|i: int|
            0 <= i < branches@.len() ==> is_range(ast, #[trigger] branches@[i]),
        _ => is_range(ast, node),
    }
}

/// Whether a fact pattern stands at a node or somewhere inside it.
pub open spec fn has_a_pattern(ast: Ast, node: NodeId) -> bool {
    ast.kind(node) is Fact || exists|pattern: NodeId|
        ast.kind(pattern) is Fact && #[trigger] telling::inside(ast, node, pattern)
}

/// Whether a statement can deny a node: it can range over it, and the keys have no pattern
/// inside them.
pub open spec fn can_deny(ast: Ast, node: NodeId) -> bool {
    can_range(ast, node) && forall|i: int|
        0 <= i < telling::patterns_of(ast, node).len() ==> !has_a_pattern(
            ast,
            ast.kind(#[trigger] telling::patterns_of(ast, node)[i])->Fact_1,
        )
}

/// Whether a node is a step, or a step of a step, taken of `root`.
pub open spec fn steps_from(ast: Ast, node: NodeId, root: NodeId) -> bool
    decreases node.0,
{
    node == root || match ast.kind(node) {
        ExprKind::Access(_, base) => base.0 < node.0 && steps_from(ast, base, root),
        ExprKind::Select(_, base) => base.0 < node.0 && steps_from(ast, base, root),
        _ => false,
    }
}

/// Whether a node names a place: a variable or a fact, or steps taken of one.
pub open spec fn is_a_place(ast: Ast, node: NodeId) -> bool {
    exists|root: NodeId| #[trigger]
        steps_from(ast, node, root) && (ast.kind(root) is Var || ast.kind(root) is Fact)
}

/// Whether a variable stands in a pattern on its own, or as a field of it at any depth.
pub open spec fn stands_bare(ast: Ast, node: NodeId, var: Symbol) -> bool
    decreases node.0,
{
    match ast.kind(node) {
        ExprKind::Var(symbol) => symbol == var,
        ExprKind::Record(fields) => exists|i: int|
            0 <= i < fields@.len() && (#[trigger] fields@[i]).1.0 < node.0 && stands_bare(
                ast,
                fields@[i].1,
                var,
            ),
        _ => false,
    }
}

/// Whether a statement is a fact pattern whose key has a variable.
pub open spec fn captures(ast: Ast, stmt: QueryStmt, var: Symbol) -> bool {
    stmt matches QueryStmt::Implicit(node) && (ast.kind(node) matches ExprKind::Fact(_, key)
        && stands_bare(ast, key, var))
}

/// Whether a variable that a subquery's patterns have is one that a pattern after the subquery
/// has too.
pub open spec fn clashes(ast: Ast, query: Query, at: NodeId) -> bool {
    let body = ast.root().body@;
    exists|i: int, j: int, k: int, var: Symbol|
        0 <= i < query.body@.len() && 0 <= j < k < body.len() && (
        #[trigger] body[j] matches QueryStmt::Bind(_, rhs) && rhs == at) && #[trigger] captures(
            ast,
            query.body@[i],
            var,
        ) && #[trigger] captures(ast, body[k], var)
}

/// Whether a statement is in place in a subquery.
pub open spec fn fits_inside(ast: Ast, stmt: QueryStmt) -> bool {
    match stmt {
        QueryStmt::Implicit(node) => can_range(ast, node),
        QueryStmt::Bind(_, _) => true,
        QueryStmt::Negation(_) => false,
    }
}

/// Whether a statement is in place in a query's body.
pub open spec fn fits(ast: Ast, stmt: QueryStmt) -> bool {
    match stmt {
        QueryStmt::Implicit(node) => can_range(ast, node),
        QueryStmt::Negation(node) => can_deny(ast, node),
        QueryStmt::Bind(_, rhs) => match ast.kind(rhs) {
            ExprKind::Subquery(query) => !clashes(ast, query, rhs) && forall|i: int|
                0 <= i < query.body@.len() ==> fits_inside(ast, #[trigger] query.body@[i]),
            ExprKind::Disjunction(_) => can_range(ast, rhs),
            ExprKind::Prefix(_) => true,
            _ => is_range(ast, rhs) || ast.constant(rhs) || is_a_place(ast, rhs),
        },
    }
}

/// Whether a statement is not a constant taken apart.
pub open spec fn keeps_constants(ast: Ast, stmt: QueryStmt) -> bool {
    stmt matches QueryStmt::Bind(lhs, rhs) ==> ast.constant(rhs) ==> ast.kind(lhs) is Var
        || ast.kind(lhs) is Wildcard
}

// ---- ranging ----------------------------------------------------------------

proof fn lemma_branches(cx: Cx, st: St, branches: Seq<NodeId>, k: nat)
    requires
        k <= branches.len(),
    ensures
        ({
            let (after, found) = collecting::branches_of(cx, st, branches, k);
            let good = forall|i: int| 0 <= i < k ==> is_range(cx.ast, #[trigger] branches[i]);
            &&& found is Some <==> good
            &&& good ==> after.reports == st.reports
            &&& !good ==> after.reports.len() > st.reports.len()
        }),
    decreases k,
{
    if k > 0 {
        lemma_branches(cx, st, branches, (k - 1) as nat);
        let (s1, before) = collecting::branches_of(cx, st, branches, (k - 1) as nat);
        let less = forall|i: int| 0 <= i < k - 1 ==> is_range(cx.ast, #[trigger] branches[i]);
        let good = forall|i: int| 0 <= i < k ==> is_range(cx.ast, #[trigger] branches[i]);
        if less && is_range(cx.ast, branches[k - 1]) {
            assert forall|i: int| 0 <= i < k implies is_range(
                cx.ast,
                #[trigger] branches[i],
            ) by {
                if i < k - 1 {
                }
            }
            assert(good);
        } else if less {
            assert(!is_range(cx.ast, branches[k - 1]));
            assert(!good);
        } else {
            let i = choose|i: int| 0 <= i < k - 1 && !is_range(cx.ast, #[trigger] branches[i]);
            assert(!is_range(cx.ast, branches[i]));
            assert(!good);
        }
    }
}

proof fn lemma_generator(cx: Cx, st: St, node: NodeId, row: Option<Symbol>)
    ensures
        ({
            let (after, found) = collecting::generator(cx, st, node, row);
            &&& found is Some <==> can_range(cx.ast, node)
            &&& can_range(cx.ast, node) ==> after.reports == st.reports
            &&& !can_range(cx.ast, node) ==> after.reports.len() > st.reports.len()
        }),
{
    if let ExprKind::Disjunction(branches) = cx.ast.kind(node) {
        lemma_branches(cx, st, branches@, branches@.len());
    }
}

proof fn lemma_hoist_within(cx: Cx, st: St, stmts: Seq<Stmt>, node: NodeId)
    ensures
        collecting::hoist_within(cx, st, stmts, node).0.reports == st.reports,
    decreases node.0, 1nat, 0nat,
{
    match cx.ast.kind(node) {
        ExprKind::Record(fields) => {
            lemma_hoist_fields(cx, st, stmts, node, fields@, fields@.len());
        },
        ExprKind::Access(_, base) => {
            if base.0 < node.0 {
                lemma_hoist_node(cx, st, stmts, base);
            }
        },
        ExprKind::Select(_, base) => {
            if base.0 < node.0 {
                lemma_hoist_node(cx, st, stmts, base);
            }
        },
        _ => {},
    }
}

proof fn lemma_hoist_fields(
    cx: Cx,
    st: St,
    stmts: Seq<Stmt>,
    node: NodeId,
    fields: Seq<(Symbol, NodeId)>,
    k: nat,
)
    ensures
        collecting::hoist_fields(cx, st, stmts, node, fields, k).0.reports == st.reports,
    decreases node.0, 0nat, k,
{
    if k > 0 {
        lemma_hoist_fields(cx, st, stmts, node, fields, (k - 1) as nat);
        let (s1, q1) = collecting::hoist_fields(cx, st, stmts, node, fields, (k - 1) as nat);
        if fields[k - 1].1.0 < node.0 {
            lemma_hoist_node(cx, s1, q1, fields[k - 1].1);
        }
    }
}

proof fn lemma_hoist_node(cx: Cx, st: St, stmts: Seq<Stmt>, node: NodeId)
    ensures
        collecting::hoist_node(cx, st, stmts, node).0.reports == st.reports,
    decreases node.0, 2nat, 0nat,
{
    match cx.ast.kind(node) {
        ExprKind::Fact(_, key) => {
            if key.0 < node.0 {
                lemma_hoist_within(cx, st, stmts, key);
            }
        },
        _ => {
            lemma_hoist_within(cx, st, stmts, node);
        },
    }
}

proof fn lemma_hoist_alts(cx: Cx, st: St, stmts: Seq<Stmt>, alts: Seq<Alt>, k: nat)
    ensures
        collecting::hoist_alts(cx, st, stmts, alts, k).0.reports == st.reports,
    decreases k,
{
    if k > 0 {
        lemma_hoist_alts(cx, st, stmts, alts, (k - 1) as nat);
        let (s1, q1) = collecting::hoist_alts(cx, st, stmts, alts, (k - 1) as nat);
        lemma_hoist_within(cx, s1, q1, alts[k - 1].key);
    }
}

proof fn lemma_scanned(cx: Cx, st: St, stmts: Seq<Stmt>, node: NodeId, row: Option<Symbol>)
    ensures
        ({
            let after = collecting::scanned(cx, st, stmts, node, row).0;
            &&& can_range(cx.ast, node) ==> after.reports == st.reports
            &&& !can_range(cx.ast, node) ==> after.reports.len() > st.reports.len()
        }),
{
    lemma_generator(cx, st, node, row);
    let (s1, found) = collecting::generator(cx, st, node, row);
    if let Some(scan) = found {
        let alts = scan.alternatives@;
        lemma_hoist_alts(cx, s1, stmts, alts, alts.len());
    }
}

// ---- denying ----------------------------------------------------------------

proof fn lemma_nests(cx: Cx, node: NodeId)
    requires
        cx.ast.wf(),
        cx.ast.has(node),
    ensures
        model::nests_a_generator(cx, node) == has_a_pattern(cx.ast, node),
    decreases node.0,
{
    let ast = cx.ast;
    assert(syntax::children_below(ast.kind(node), node.0 as nat));
    if ast.kind(node) is Fact {
    } else {
        if model::nests_a_generator(cx, node) {
            let inner = match ast.kind(node) {
                ExprKind::Record(fields) => fields@[choose|i: int|
                    0 <= i < fields@.len() && (#[trigger] fields@[i]).1.0 < node.0
                        && model::nests_a_generator(cx, fields@[i].1)].1,
                ExprKind::Access(_, base) => base,
                ExprKind::Select(_, base) => base,
                _ => node,
            };
            assert(telling::piece(ast, node, inner));
            lemma_nests(cx, inner);
            if ast.kind(inner) is Fact {
                assert(telling::inside(ast, node, inner));
            } else {
                let pattern = choose|pattern: NodeId|
                    ast.kind(pattern) is Fact && #[trigger] telling::inside(ast, inner, pattern);
                assert(telling::inside(ast, node, pattern));
            }
        }
        if has_a_pattern(ast, node) {
            let pattern = choose|pattern: NodeId|
                ast.kind(pattern) is Fact && #[trigger] telling::inside(ast, node, pattern);
            let inner = choose|inner: NodeId| #[trigger]
                telling::piece(ast, node, inner) && inner.0 < node.0 && (inner == pattern
                    || telling::inside(ast, inner, pattern) || (ast.kind(
                    inner,
                ) matches ExprKind::Fact(_, key) && key.0 < inner.0 && telling::inside(
                    ast,
                    key,
                    pattern,
                )));
            lemma_nests(cx, inner);
            assert(has_a_pattern(ast, inner));
        }
    }
}

proof fn lemma_nesting_alt(cx: Cx, alts: Seq<Alt>, i: nat)
    requires
        i <= alts.len(),
    ensures
        collecting::nesting_alt(cx, alts, i) is None <==> forall|j: int|
            i <= j < alts.len() ==> !model::nests_a_generator(cx, (#[trigger] alts[j]).key),
    decreases alts.len() - i,
{
    if i < alts.len() {
        if model::nests_a_generator(cx, alts[i as int].key) {
        } else {
            lemma_nesting_alt(cx, alts, i + 1);
        }
    }
}

proof fn lemma_negated(cx: Cx, st: St, node: NodeId)
    requires
        cx.ast.wf(),
        cx.ast.has(node),
        collecting::negated(cx, st, node).0.sealed,
    ensures
        ({
            let (after, found) = collecting::negated(cx, st, node);
            &&& can_deny(cx.ast, node) ==> after.reports == st.reports
            &&& !can_deny(cx.ast, node) ==> after.reports.len() > st.reports.len()
        }),
{
    let ast = cx.ast;
    if !(ast.kind(node) is Subquery) {
        lemma_generator(cx, st, node, None);
        telling::lemma_generator(cx, st, node, None);
        telling::lemma_patterns_had(ast, node);
        let (s1, found) = collecting::generator(cx, st, node, None);
        if let Some(tested) = found {
            let alts = tested.alternatives@;
            let nodes = telling::patterns_of(ast, node);
            assert(telling::are(ast, alts, nodes));
            lemma_nesting_alt(cx, alts, 0);
            assert forall|i: int| 0 <= i < alts.len() implies model::nests_a_generator(
                cx,
                (#[trigger] alts[i]).key,
            ) == has_a_pattern(ast, ast.kind(nodes[i])->Fact_1) by {
                assert(ast.kind(nodes[i]) == ExprKind::Fact(alts[i].predicate, alts[i].key));
                assert(syntax::children_below(ast.kind(nodes[i]), nodes[i].0 as nat));
                lemma_nests(cx, alts[i].key);
            }
            if collecting::nesting_alt(cx, alts, 0) is None {
                assert forall|i: int| 0 <= i < nodes.len() implies !has_a_pattern(
                    ast,
                    ast.kind(#[trigger] nodes[i])->Fact_1,
                ) by {
                    assert(!model::nests_a_generator(cx, alts[i].key));
                }
            } else {
                let j = choose|j: int|
                    0 <= j < alts.len() && model::nests_a_generator(cx, (#[trigger] alts[j]).key);
                assert(has_a_pattern(ast, ast.kind(nodes[j])->Fact_1));
            }
        }
    }
}

// ---- places -----------------------------------------------------------------

pub proof fn lemma_place(cx: Cx, node: NodeId)
    ensures
        model::names_a_location(cx, node) == is_a_place(cx.ast, node),
    decreases node.0,
{
    let ast = cx.ast;
    if ast.kind(node) is Var || ast.kind(node) is Fact {
        assert(steps_from(ast, node, node));
    }
    let next = match ast.kind(node) {
        ExprKind::Access(_, base) => Some(base),
        ExprKind::Select(_, base) => Some(base),
        _ => None,
    };
    if let Some(base) = next {
        if base.0 < node.0 {
            lemma_place(cx, base);
            if is_a_place(ast, base) {
                let root = choose|root: NodeId| #[trigger]
                    steps_from(ast, base, root) && (ast.kind(root) is Var || ast.kind(
                        root,
                    ) is Fact);
                assert(steps_from(ast, node, root));
            }
            if is_a_place(ast, node) {
                let root = choose|root: NodeId| #[trigger]
                    steps_from(ast, node, root) && (ast.kind(root) is Var || ast.kind(
                        root,
                    ) is Fact);
                assert(steps_from(ast, base, root));
            }
        }
    }
}

// ---- variables --------------------------------------------------------------

pub proof fn lemma_bare(cx: Cx, node: NodeId, var: Symbol)
    ensures
        model::bare_variables(cx, node).contains(var) == stands_bare(cx.ast, node, var),
    decreases node.0, 1nat, 0nat,
{
    match cx.ast.kind(node) {
        ExprKind::Var(symbol) => {
            assert(seq![symbol][0] == symbol);
        },
        ExprKind::Record(fields) => {
            lemma_bare_fields(cx, node, fields@, fields@.len(), var);
        },
        _ => {},
    }
}

proof fn lemma_bare_fields(
    cx: Cx,
    node: NodeId,
    fields: Seq<(Symbol, NodeId)>,
    k: nat,
    var: Symbol,
)
    requires
        k <= fields.len(),
    ensures
        model::bare_variables_of(cx, node, fields, k).contains(var) == (exists|i: int|
            0 <= i < k && (#[trigger] fields[i]).1.0 < node.0 && stands_bare(
                cx.ast,
                fields[i].1,
                var,
            )),
    decreases node.0, 0nat, k,
{
    if k > 0 {
        lemma_bare_fields(cx, node, fields, (k - 1) as nat, var);
        let before = model::bare_variables_of(cx, node, fields, (k - 1) as nat);
        let last = if fields[k - 1].1.0 < node.0 {
            model::bare_variables(cx, fields[k - 1].1)
        } else {
            Seq::empty()
        };
        lemma_either(before, last, var);
        if fields[k - 1].1.0 < node.0 {
            lemma_bare(cx, fields[k - 1].1, var);
        }
    }
}

pub proof fn lemma_either(a: Seq<Symbol>, b: Seq<Symbol>, var: Symbol)
    ensures
        (a + b).contains(var) == (a.contains(var) || b.contains(var)),
{
    let all = a + b;
    if a.contains(var) {
        let i = choose|i: int| 0 <= i < a.len() && a[i] == var;
        assert(all[i] == var);
    }
    if b.contains(var) {
        let i = choose|i: int| 0 <= i < b.len() && b[i] == var;
        assert(all[a.len() + i] == var);
    }
    if all.contains(var) {
        let i = choose|i: int| 0 <= i < all.len() && all[i] == var;
        if i < a.len() {
            assert(a[i] == var);
        } else {
            assert(b[i - a.len()] == var);
        }
    }
}

proof fn lemma_captures_of(cx: Cx, stmt: QueryStmt, var: Symbol)
    ensures
        collecting::captures_of(cx, stmt).contains(var) == captures(cx.ast, stmt, var),
{
    if let QueryStmt::Implicit(node) = stmt {
        if let ExprKind::Fact(_, key) = cx.ast.kind(node) {
            lemma_bare(cx, key, var);
        }
    }
}

proof fn lemma_implicit(cx: Cx, body: Seq<QueryStmt>, k: nat, var: Symbol)
    requires
        k <= body.len(),
    ensures
        collecting::implicit_captures(cx, body, k).contains(var) == (exists|i: int|
            0 <= i < k && #[trigger] captures(cx.ast, body[i], var)),
    decreases k,
{
    if k > 0 {
        lemma_implicit(cx, body, (k - 1) as nat, var);
        lemma_captures_of(cx, body[k - 1], var);
        lemma_either(
            collecting::implicit_captures(cx, body, (k - 1) as nat),
            collecting::captures_of(cx, body[k - 1]),
            var,
        );
        if captures(cx.ast, body[k - 1], var) {
            assert(exists|i: int| 0 <= i < k && #[trigger] captures(cx.ast, body[i], var));
        }
    }
}

/// Whether a statement binds something to a node.
pub open spec fn binds_to(stmt: QueryStmt, at: NodeId) -> bool {
    stmt matches QueryStmt::Bind(_, rhs) && rhs == at
}

proof fn lemma_bound_to(body: Seq<QueryStmt>, at: NodeId, k: nat)
    requires
        k <= body.len(),
    ensures
        collecting::bound_to(body, at, k) == (exists|j: int|
            0 <= j < k && binds_to(#[trigger] body[j], at)),
    decreases k,
{
    if k > 0 {
        lemma_bound_to(body, at, (k - 1) as nat);
        if binds_to(body[k - 1], at) {
            assert(exists|j: int| 0 <= j < k && binds_to(#[trigger] body[j], at));
        }
    }
}

/// Whether a statement after one that binds to a node has a variable.
pub open spec fn captures_later(
    ast: Ast,
    body: Seq<QueryStmt>,
    at: NodeId,
    k: int,
    var: Symbol,
) -> bool {
    captures(ast, body[k], var) && exists|j: int| 0 <= j < k && binds_to(#[trigger] body[j], at)
}

proof fn lemma_after(cx: Cx, body: Seq<QueryStmt>, at: NodeId, k: nat, var: Symbol)
    requires
        k <= body.len(),
    ensures
        collecting::captures_after(cx, body, at, k).contains(var) == (exists|i: int|
            0 <= i < k && #[trigger] captures_later(cx.ast, body, at, i, var)),
    decreases k,
{
    if k > 0 {
        lemma_after(cx, body, at, (k - 1) as nat, var);
        lemma_bound_to(body, at, (k - 1) as nat);
        lemma_captures_of(cx, body[k - 1], var);
        let before = collecting::captures_after(cx, body, at, (k - 1) as nat);
        lemma_either(before, collecting::captures_of(cx, body[k - 1]), var);
        assert(captures_later(cx.ast, body, at, k - 1, var) == (captures(
            cx.ast,
            body[k - 1],
            var,
        ) && collecting::bound_to(body, at, (k - 1) as nat)));
    }
}

proof fn lemma_shared(inner: Seq<Symbol>, outer: Seq<Symbol>, i: nat)
    requires
        i <= inner.len(),
    ensures
        collecting::first_shared(inner, outer, i) is None <==> forall|j: int|
            i <= j < inner.len() ==> !outer.contains(#[trigger] inner[j]),
    decreases inner.len() - i,
{
    if i < inner.len() {
        if outer.contains(inner[i as int]) {
        } else {
            lemma_shared(inner, outer, i + 1);
        }
    }
}

proof fn lemma_clash(cx: Cx, query: Query, at: NodeId)
    ensures
        collecting::shadowed(cx, query.body@, at) is Some <==> clashes(cx.ast, query, at),
{
    let ast = cx.ast;
    let body = ast.root().body@;
    let inner = collecting::implicit_captures(cx, query.body@, query.body@.len());
    let outer = collecting::captures_after(cx, body, at, body.len());
    lemma_shared(inner, outer, 0);
    if collecting::shadowed(cx, query.body@, at) is Some {
        let m = choose|m: int| 0 <= m < inner.len() && outer.contains(#[trigger] inner[m]);
        let var = inner[m];
        lemma_implicit(cx, query.body@, query.body@.len(), var);
        lemma_after(cx, body, at, body.len(), var);
        assert(inner.contains(var));
        let i = choose|i: int|
            0 <= i < query.body@.len() && #[trigger] captures(ast, query.body@[i], var);
        let k = choose|k: int|
            0 <= k < body.len() && #[trigger] captures_later(ast, body, at, k, var);
        let j = choose|j: int| 0 <= j < k && binds_to(#[trigger] body[j], at);
        assert(captures(ast, query.body@[i], var));
        assert(captures(ast, body[k], var));
        assert(body[j] matches QueryStmt::Bind(_, rhs) && rhs == at);
    }
    if clashes(ast, query, at) {
        let (i, j, k, var) = choose|i: int, j: int, k: int, var: Symbol|
            0 <= i < query.body@.len() && 0 <= j < k < body.len() && (
            #[trigger] body[j] matches QueryStmt::Bind(_, rhs) && rhs == at) && #[trigger] captures(
                ast,
                query.body@[i],
                var,
            ) && #[trigger] captures(ast, body[k], var);
        lemma_implicit(cx, query.body@, query.body@.len(), var);
        lemma_after(cx, body, at, body.len(), var);
        assert(captures(ast, query.body@[i], var));
        assert(binds_to(body[j], at));
        assert(captures_later(ast, body, at, k, var));
        let m = choose|m: int| 0 <= m < inner.len() && inner[m] == var;
        assert(outer.contains(inner[m]));
    }
}

// ---- statements -------------------------------------------------------------

proof fn lemma_inlined(cx: Cx, st: St, stmts: Seq<Stmt>, body: Seq<QueryStmt>, k: nat)
    requires
        k <= body.len(),
    ensures
        ({
            let after = collecting::inlined(cx, st, stmts, body, k).0;
            let good = forall|i: int| 0 <= i < k ==> fits_inside(cx.ast, #[trigger] body[i]);
            &&& good ==> after.reports == st.reports
            &&& !good ==> after.reports.len() > st.reports.len()
        }),
    decreases k,
{
    if k > 0 {
        lemma_inlined(cx, st, stmts, body, (k - 1) as nat);
        let (s1, q1) = collecting::inlined(cx, st, stmts, body, (k - 1) as nat);
        let less = forall|i: int| 0 <= i < k - 1 ==> fits_inside(cx.ast, #[trigger] body[i]);
        let good = forall|i: int| 0 <= i < k ==> fits_inside(cx.ast, #[trigger] body[i]);
        match body[k - 1] {
            QueryStmt::Implicit(node) => {
                lemma_scanned(cx, s1, q1, node, None);
            },
            QueryStmt::Bind(_, rhs) => {
                lemma_hoist_within(cx, s1, q1, rhs);
            },
            QueryStmt::Negation(_) => {},
        }
        if less && fits_inside(cx.ast, body[k - 1]) {
            assert(good);
        } else if less {
            assert(!good);
        } else {
            let i = choose|i: int| 0 <= i < k - 1 && !fits_inside(cx.ast, #[trigger] body[i]);
            assert(!fits_inside(cx.ast, body[i]));
            assert(!good);
        }
    }
}

/// A statement is collected without a word if and only if it is in place.
pub proof fn law_what_is_out_of_place_is_reported(
    cx: Cx,
    st: St,
    stmts: Seq<Stmt>,
    stmt: QueryStmt,
)
    requires
        cx.ast.wf(),
        syntax::stmt_below(stmt, cx.ast.tree().kinds().len()),
        keeps_constants(cx.ast, stmt),
        collecting::collected_stmt(cx, st, stmts, stmt).0.sealed,
    ensures
        ({
            let after = collecting::collected_stmt(cx, st, stmts, stmt).0;
            &&& fits(cx.ast, stmt) ==> after.reports == st.reports
            &&& !fits(cx.ast, stmt) ==> after.reports.len() > st.reports.len()
        }),
{
    let ast = cx.ast;
    match stmt {
        QueryStmt::Implicit(node) => {
            lemma_scanned(cx, st, stmts, node, None);
        },
        QueryStmt::Negation(node) => {
            lemma_negated(cx, st, node);
        },
        QueryStmt::Bind(lhs, rhs) => {
            lemma_scanned(cx, st, stmts, rhs, telling::variable(ast, lhs));
            lemma_hoist_within(cx, st, stmts, rhs);
            lemma_place(cx, rhs);
            if let ExprKind::Subquery(query) = ast.kind(rhs) {
                lemma_clash(cx, query, rhs);
                lemma_inlined(cx, st, stmts, query.body@, query.body@.len());
            }
        },
    }
}

proof fn lemma_body(cx: Cx, st: St, body: Seq<QueryStmt>, k: nat)
    requires
        cx.ast.wf(),
        k <= body.len(),
        forall|i: int|
            0 <= i < body.len() ==> syntax::stmt_below(
                #[trigger] body[i],
                cx.ast.tree().kinds().len(),
            ),
        forall|i: int| 0 <= i < body.len() ==> keeps_constants(cx.ast, #[trigger] body[i]),
        scope::within(st, 0),
        collecting::collected_body(cx, st, body, k).0.sealed,
    ensures
        ({
            let after = collecting::collected_body(cx, st, body, k).0;
            let good = forall|i: int| 0 <= i < k ==> fits(cx.ast, #[trigger] body[i]);
            &&& good ==> after.reports == st.reports
            &&& !good ==> after.reports.len() > st.reports.len()
        }),
    decreases k,
{
    if k > 0 {
        let (s1, q1) = collecting::collected_body(cx, st, body, (k - 1) as nat);
        scope::lemma_body_gathers(cx, st, body, (k - 1) as nat);
        scope::lemma_stmt_gathers(cx, s1, q1, body[k - 1]);
        lemma_body(cx, st, body, (k - 1) as nat);
        law_what_is_out_of_place_is_reported(cx, s1, q1, body[k - 1]);
        let less = forall|i: int| 0 <= i < k - 1 ==> fits(cx.ast, #[trigger] body[i]);
        let good = forall|i: int| 0 <= i < k ==> fits(cx.ast, #[trigger] body[i]);
        if less && fits(cx.ast, body[k - 1]) {
            assert(good);
        } else if less {
            assert(!good);
        } else {
            let i = choose|i: int| 0 <= i < k - 1 && !fits(cx.ast, #[trigger] body[i]);
            assert(!fits(cx.ast, body[i]));
            assert(!good);
        }
    }
}

/// A query's body is collected without a word if and only if every statement is in place.
pub proof fn law_a_body_is_collected_iff_it_is_in_place(cx: Cx, st: St)
    requires
        cx.ast.wf(),
        scope::within(st, 0),
        forall|i: int|
            0 <= i < cx.ast.root().body@.len() ==> keeps_constants(
                cx.ast,
                #[trigger] cx.ast.root().body@[i],
            ),
        collecting::collected_body(
            cx,
            st,
            cx.ast.root().body@,
            cx.ast.root().body@.len(),
        ).0.sealed,
    ensures
        ({
            let body = cx.ast.root().body@;
            collecting::collected_body(cx, st, body, body.len()).0.reports == st.reports <==> (
            forall|i: int| 0 <= i < body.len() ==> fits(cx.ast, #[trigger] body[i]))
        }),
{
    lemma_body(cx, st, cx.ast.root().body@, cx.ast.root().body@.len());
}

} // verus!
