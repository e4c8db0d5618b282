//! What collecting a query leaves: constants, prefixes, and statements whose patterns are all
//! in the tree.
use vstd::prelude::*;

use super::collect;
use super::collecting;
use super::collecting::{Claimed, Occurs};
use super::model;
use super::model::{Alt, Cx, Slot, St, Stmt};
use super::scope;
use crate::reorder::StmtDeps;
use crate::schema::{NameKey, PredicateTy, Symbol};
use crate::syntax;
use crate::syntax::{ExprKind, NodeId, NodeSpan, QueryStmt};

verus! {

// ---- states -----------------------------------------------------------------

/// A slot is a constant of the tree.
pub open spec fn constant_slot(cx: Cx, slot: Slot) -> bool {
    slot matches Slot::Const(node) && cx.ast.constant(node)
}

/// Every place that is named is a constant, every constraint is a prefix, and no reference
/// was followed.
pub open spec fn fine(cx: Cx, st: St) -> bool {
    &&& forall|i: int|
        0 <= i < st.bindings.len() ==> constant_slot(cx, (#[trigger] st.bindings[i]).1)
    &&& forall|i: int|
        0 <= i < st.compares.len() ==> constant_slot(cx, (#[trigger] st.compares[i]).left)
            && constant_slot(cx, st.compares[i].right)
    &&& forall|i: int|
        0 <= i < st.constraints.len() ==> cx.ast.kind((#[trigger] st.constraints[i]).1) is Prefix
    &&& st.fetched.len() == 0
    &&& st.constrained.len() == 0
}

/// Two states that name the same places.
pub open spec fn same_places(a: St, b: St) -> bool {
    &&& b.bindings == a.bindings
    &&& b.compares == a.compares
    &&& b.hoisted == a.hoisted
    &&& b.fetched == a.fetched
    &&& b.constraints == a.constraints
    &&& b.constrained == a.constrained
    &&& b.names == a.names
}

/// The pattern a record gives for a name is one of its own.
pub proof fn lemma_field_pattern(fields: Seq<(Symbol, NodeId)>, name: Symbol)
    ensures
        model::field_pattern(fields, name) matches Some(piece) ==> exists|i: int|
            0 <= i < fields.len() && (#[trigger] fields[i]).1 == piece,
    decreases fields.len(),
{
    if fields.len() > 0 {
        let shorter = fields.drop_last();
        lemma_field_pattern(shorter, name);
        if let Some(piece) = model::field_pattern(shorter, name) {
            let i = choose|i: int| 0 <= i < shorter.len() && (#[trigger] shorter[i]).1 == piece;
            assert(fields[i].1 == piece);
        } else {
            assert(fields[fields.len() - 1] == fields.last());
        }
    }
}

pub proof fn lemma_lookup(cx: Cx, bindings: Seq<(Symbol, Slot)>, symbol: Symbol)
    requires
        forall|i: int|
            0 <= i < bindings.len() ==> constant_slot(cx, (#[trigger] bindings[i]).1),
    ensures
        model::lookup(bindings, symbol) matches Some(slot) ==> constant_slot(cx, slot),
    decreases bindings.len(),
{
    if bindings.len() > 0 {
        let shorter = bindings.drop_last();
        assert forall|i: int| 0 <= i < shorter.len() implies constant_slot(
            cx,
            (#[trigger] shorter[i]).1,
        ) by {
            assert(shorter[i] == bindings[i]);
        }
        assert(bindings[bindings.len() - 1] == bindings.last());
        lemma_lookup(cx, shorter, symbol);
    }
}

/// A constant is named piece by piece.
proof fn lemma_bind(cx: Cx, st: St, pattern: NodeId, slot: Slot)
    requires
        fine(cx, st),
        constant_slot(cx, slot),
    ensures
        fine(cx, model::bind_pattern(cx, st, pattern, slot)),
    decreases pattern.0, 1nat, 0nat,
{
    let after = model::bind_pattern(cx, st, pattern, slot);
    match cx.ast.kind(pattern) {
        ExprKind::Var(symbol) => {
            lemma_lookup(cx, st.bindings, symbol);
            assert forall|i: int| 0 <= i < after.bindings.len() implies constant_slot(
                cx,
                (#[trigger] after.bindings[i]).1,
            ) by {
                if i < st.bindings.len() {
                    assert(after.bindings[i] == st.bindings[i]);
                }
            }
            assert forall|i: int| 0 <= i < after.compares.len() implies constant_slot(
                cx,
                (#[trigger] after.compares[i]).left,
            ) && constant_slot(cx, after.compares[i].right) by {
                if i < st.compares.len() {
                    assert(after.compares[i] == st.compares[i]);
                }
            }
        },
        ExprKind::Record(fields) => lemma_bind_pieces(
            cx,
            st,
            pattern,
            slot,
            fields@,
            fields@.len(),
        ),
        _ => {},
    }
}

proof fn lemma_bind_pieces(
    cx: Cx,
    st: St,
    pattern: NodeId,
    slot: Slot,
    fields: Seq<(Symbol, NodeId)>,
    k: nat,
)
    requires
        fine(cx, st),
        constant_slot(cx, slot),
    ensures
        fine(cx, model::bind_pieces(cx, st, pattern, slot, fields, k)),
    decreases pattern.0, 0nat, k,
{
    if k > 0 {
        lemma_bind_pieces(cx, st, pattern, slot, fields, (k - 1) as nat);
        let s1 = model::bind_pieces(cx, st, pattern, slot, fields, (k - 1) as nat);
        let (name, piece) = fields[k - 1];
        let (s2, field) = model::field_slot(cx, s1, piece, slot, name);
        assert(s2 == s1);
        if let Some(place) = field {
            let folded = slot->Const_0;
            let all = cx.ast.kind(folded)->Record_0;
            lemma_field_pattern(all@, name);
            let i = choose|i: int|
                0 <= i < all@.len() && (#[trigger] all@[i]).1 == place->Const_0;
            assert(cx.ast.constant(all@[i].1));
            if piece.0 < pattern.0 {
                lemma_bind(cx, s2, piece, place);
            }
        }
    }
}

// ---- statements -------------------------------------------------------------

/// What is gathered so far is sound.
pub open spec fn well(cx: Cx, st: St, stmts: Seq<Stmt>) -> bool {
    &&& fine(cx, st)
    &&& collect::stmts_ok(cx, stmts)
}

proof fn lemma_push(cx: Cx, stmts: Seq<Stmt>, stmt: Stmt)
    requires
        collect::stmts_ok(cx, stmts),
        collect::stmt_ok(cx, stmt),
    ensures
        collect::stmts_ok(cx, stmts.push(stmt)),
{
    let all = stmts.push(stmt);
    assert forall|i: int| 0 <= i < all.len() implies collect::stmt_ok(cx, #[trigger] all[i]) by {
        if i < stmts.len() {
            assert(all[i] == stmts[i]);
        }
    }
}

proof fn lemma_branches(cx: Cx, st: St, branches: Seq<NodeId>, k: nat)
    requires
        cx.ast.wf(),
        k <= branches.len(),
        forall|i: int| 0 <= i < branches.len() ==> cx.ast.has(#[trigger] branches[i]),
    ensures
        same_places(st, collecting::branches_of(cx, st, branches, k).0),
        collecting::branches_of(cx, st, branches, k).1 matches Some(alts) ==> collect::alts_ok(
            cx,
            alts,
        ),
    decreases k,
{
    if k > 0 {
        lemma_branches(cx, st, branches, (k - 1) as nat);
        let (s1, before) = collecting::branches_of(cx, st, branches, (k - 1) as nat);
        let branch = branches[k - 1];
        assert(cx.ast.has(branch));
        assert(syntax::children_below(
            cx.ast.tree().kinds()[branch.0 as int],
            branch.0 as nat,
        ));
        if let Some(alts) = before {
            if let ExprKind::Fact(predicate, key) = cx.ast.kind(branch) {
                let all = alts.push(Alt { predicate, key });
                assert forall|i: int| 0 <= i < all.len() implies cx.ast.has(
                    (#[trigger] all[i]).key,
                ) by {
                    if i < alts.len() {
                        assert(all[i] == alts[i]);
                    }
                }
            }
        }
    }
}

proof fn lemma_generator(cx: Cx, st: St, node: NodeId, row: Option<Symbol>)
    requires
        cx.ast.wf(),
        cx.ast.has(node),
        collecting::generator(cx, st, node, row).0.sealed,
    ensures
        same_places(st, collecting::generator(cx, st, node, row).0),
        collecting::generator(cx, st, node, row).1 matches Some(scan) ==> collect::alts_ok(
            cx,
            scan.alternatives@,
        ) && scan.row == row,
{
    assert(syntax::children_below(cx.ast.tree().kinds()[node.0 as int], node.0 as nat));
    if let ExprKind::Disjunction(branches) = cx.ast.kind(node) {
        lemma_branches(cx, st, branches@, branches@.len());
    }
}

proof fn lemma_negated(cx: Cx, st: St, node: NodeId)
    requires
        scope::within(st, 0),
        cx.ast.wf(),
        cx.ast.has(node),
        collecting::negated(cx, st, node).0.sealed,
    ensures
        same_places(st, collecting::negated(cx, st, node).0),
        collecting::negated(cx, st, node).1 matches Some(tested) ==> collect::alts_ok(
            cx,
            tested.alternatives@,
        ),
{
    if !(cx.ast.kind(node) is Subquery) {
        lemma_generator(cx, st, node, None);
    }
}

proof fn lemma_hoist_within(cx: Cx, st: St, stmts: Seq<Stmt>, node: NodeId)
    requires
        cx.ast.wf(),
        cx.ast.has(node),
        scope::within(st, 0),
        well(cx, st, stmts),
        collecting::hoist_within(cx, st, stmts, node).0.sealed,
    ensures
        ({
            let (after, more) = collecting::hoist_within(cx, st, stmts, node);
            well(cx, after, more)
        }),
    decreases node.0, 1nat, 0nat,
{
    assert(syntax::children_below(cx.ast.tree().kinds()[node.0 as int], node.0 as nat));
    match cx.ast.kind(node) {
        ExprKind::Record(fields) => lemma_hoist_fields(
            cx,
            st,
            stmts,
            node,
            fields@,
            fields@.len(),
        ),
        ExprKind::Access(_, base) => lemma_hoist_node(cx, st, stmts, base),
        ExprKind::Select(_, base) => lemma_hoist_node(cx, st, stmts, base),
        _ => {},
    }
}

proof fn lemma_hoist_fields(
    cx: Cx,
    st: St,
    stmts: Seq<Stmt>,
    node: NodeId,
    fields: Seq<(Symbol, NodeId)>,
    k: nat,
)
    requires
        cx.ast.wf(),
        cx.ast.has(node),
        k <= fields.len(),
        forall|i: int| 0 <= i < fields.len() ==> (#[trigger] fields[i]).1.0 < node.0,
        scope::within(st, 0),
        well(cx, st, stmts),
        collecting::hoist_fields(cx, st, stmts, node, fields, k).0.sealed,
    ensures
        ({
            let (after, more) = collecting::hoist_fields(cx, st, stmts, node, fields, k);
            well(cx, after, more)
        }),
    decreases node.0, 0nat, k,
{
    if k > 0 {
        let j = (k - 1) as nat;
        let (s1, q1) = collecting::hoist_fields(cx, st, stmts, node, fields, j);
        scope::lemma_hoist_fields_gather(cx, st, stmts, node, fields, j);
        assert(fields[k - 1].1.0 < node.0);
        scope::lemma_hoist_node_gathers(cx, s1, q1, fields[k - 1].1);
        lemma_hoist_fields(cx, st, stmts, node, fields, j);
        lemma_hoist_node(cx, s1, q1, fields[k - 1].1);
    }
}

proof fn lemma_hoist_node(cx: Cx, st: St, stmts: Seq<Stmt>, node: NodeId)
    requires
        cx.ast.wf(),
        cx.ast.has(node),
        scope::within(st, 0),
        well(cx, st, stmts),
        collecting::hoist_node(cx, st, stmts, node).0.sealed,
    ensures
        ({
            let (after, more) = collecting::hoist_node(cx, st, stmts, node);
            well(cx, after, more)
        }),
    decreases node.0, 2nat, 0nat,
{
    assert(syntax::children_below(cx.ast.tree().kinds()[node.0 as int], node.0 as nat));
    match cx.ast.kind(node) {
        ExprKind::Fact(predicate, key) => {
            lemma_hoist_within(cx, st, stmts, key);
            let (s1, q1) = collecting::hoist_within(cx, st, stmts, key);
            let (s2, q2) = collecting::hoist_node(cx, st, stmts, node);
            let alts = seq![Alt { predicate, key }];
            assert(alts[0].key == key);
            assert(q2.last()->Scan_0.alternatives@ == alts);
            lemma_push(cx, q1, q2.last());
        },
        _ => lemma_hoist_within(cx, st, stmts, node),
    }
}

proof fn lemma_hoist_alts(cx: Cx, st: St, stmts: Seq<Stmt>, alts: Seq<Alt>, k: nat)
    requires
        cx.ast.wf(),
        k <= alts.len(),
        collect::alts_ok(cx, alts),
        scope::within(st, 0),
        well(cx, st, stmts),
        collecting::hoist_alts(cx, st, stmts, alts, k).0.sealed,
    ensures
        ({
            let (after, more) = collecting::hoist_alts(cx, st, stmts, alts, k);
            well(cx, after, more)
        }),
    decreases k,
{
    if k > 0 {
        let j = (k - 1) as nat;
        let (s1, q1) = collecting::hoist_alts(cx, st, stmts, alts, j);
        scope::lemma_hoist_alts_gather(cx, st, stmts, alts, j);
        assert(cx.ast.has(alts[k - 1].key));
        scope::lemma_hoist_within_gathers(cx, s1, q1, alts[k - 1].key);
        lemma_hoist_alts(cx, st, stmts, alts, j);
        lemma_hoist_within(cx, s1, q1, alts[k - 1].key);
    }
}

proof fn lemma_scanned(cx: Cx, st: St, stmts: Seq<Stmt>, node: NodeId, row: Option<Symbol>)
    requires
        cx.ast.wf(),
        cx.ast.has(node),
        scope::within(st, 0),
        well(cx, st, stmts),
        collecting::scanned(cx, st, stmts, node, row).0.sealed,
    ensures
        ({
            let (after, more) = collecting::scanned(cx, st, stmts, node, row);
            well(cx, after, more)
        }),
{
    let (s1, found) = collecting::generator(cx, st, node, row);
    scope::lemma_generator_gathers(cx, st, node, row);
    if let Some(scan) = found {
        let alts = scan.alternatives@;
        scope::lemma_hoist_alts_gather(cx, s1, stmts, alts, alts.len());
        lemma_generator(cx, st, node, row);
        lemma_hoist_alts(cx, s1, stmts, alts, alts.len());
        let q2 = collecting::hoist_alts(cx, s1, stmts, alts, alts.len()).1;
        lemma_push(cx, q2, Stmt::Scan(scan));
    } else {
        lemma_generator(cx, st, node, row);
    }
}

proof fn lemma_inlined(cx: Cx, st: St, stmts: Seq<Stmt>, body: Seq<QueryStmt>, k: nat)
    requires
        cx.ast.wf(),
        k <= body.len(),
        forall|i: int|
            0 <= i < body.len() ==> syntax::stmt_below(
                #[trigger] body[i],
                cx.ast.tree().kinds().len(),
            ),
        scope::within(st, 0),
        well(cx, st, stmts),
        collecting::inlined(cx, st, stmts, body, k).0.sealed,
    ensures
        ({
            let (after, more) = collecting::inlined(cx, st, stmts, body, k);
            well(cx, after, more)
        }),
    decreases k,
{
    if k > 0 {
        let j = (k - 1) as nat;
        let (s1, q1) = collecting::inlined(cx, st, stmts, body, j);
        scope::lemma_inlined_gathers(cx, st, stmts, body, j);
        assert(syntax::stmt_below(body[k - 1], cx.ast.tree().kinds().len()));
        match body[k - 1] {
            QueryStmt::Implicit(node) => {
                scope::lemma_scanned_gathers(cx, s1, q1, node, None);
                lemma_inlined(cx, st, stmts, body, j);
                lemma_scanned(cx, s1, q1, node, None);
            },
            QueryStmt::Bind(lhs, rhs) => {
                scope::lemma_hoist_within_gathers(cx, s1, q1, rhs);
                lemma_inlined(cx, st, stmts, body, j);
                lemma_hoist_within(cx, s1, q1, rhs);
                let q2 = collecting::hoist_within(cx, s1, q1, rhs).1;
                let q3 = collecting::inlined(cx, st, stmts, body, k).1;
                lemma_push(cx, q2, q3.last());
            },
            QueryStmt::Negation(node) => lemma_inlined(cx, st, stmts, body, j),
        }
    }
}

#[verifier::rlimit(30)]
proof fn lemma_stmt(cx: Cx, st: St, stmts: Seq<Stmt>, stmt: QueryStmt)
    requires
        cx.ast.wf(),
        syntax::stmt_below(stmt, cx.ast.tree().kinds().len()),
        scope::within(st, 0),
        well(cx, st, stmts),
        collecting::collected_stmt(cx, st, stmts, stmt).0.sealed,
    ensures
        ({
            let (after, more) = collecting::collected_stmt(cx, st, stmts, stmt);
            well(cx, after, more)
        }),
{
    let (after, more) = collecting::collected_stmt(cx, st, stmts, stmt);
    match stmt {
        QueryStmt::Implicit(node) => lemma_scanned(cx, st, stmts, node, None),
        QueryStmt::Bind(lhs, rhs) => {
            assert(syntax::children_below(cx.ast.tree().kinds()[rhs.0 as int], rhs.0 as nat));
            match cx.ast.kind(rhs) {
                ExprKind::Subquery(query) => {
                    if collecting::shadowed(cx, query.body@, rhs) is None {
                        assert forall|i: int| 0 <= i < query.body@.len() implies
                            syntax::stmt_below(
                            #[trigger] query.body@[i],
                            cx.ast.tree().kinds().len(),
                        ) by {
                            assert(syntax::stmt_below(query.body@[i], rhs.0 as nat));
                        }
                        lemma_inlined(cx, st, stmts, query.body@, query.body@.len());
                        let q1 = collecting::inlined(
                            cx,
                            st,
                            stmts,
                            query.body@,
                            query.body@.len(),
                        ).1;
                        lemma_push(cx, q1, more.last());
                    }
                },
                kind => if kind is Fact || kind is Disjunction || kind is Never {
                    let row = match cx.ast.kind(lhs) {
                        ExprKind::Var(symbol) => Some(symbol),
                        _ => None,
                    };
                    lemma_scanned(cx, st, stmts, rhs, row);
                } else if cx.ast.constant(rhs) {
                    lemma_bind(cx, st, lhs, Slot::Const(rhs));
                } else if kind is Prefix {
                    lemma_push(cx, stmts, more.last());
                    assert forall|i: int| 0 <= i < after.constraints.len() implies cx.ast.kind(
                        (#[trigger] after.constraints[i]).1,
                    ) is Prefix by {
                        if i < st.constraints.len() {
                            assert(after.constraints[i] == st.constraints[i]);
                        }
                    }
                } else if model::names_a_location(cx, rhs) {
                    lemma_hoist_within(cx, st, stmts, rhs);
                    let q1 = collecting::hoist_within(cx, st, stmts, rhs).1;
                    lemma_push(cx, q1, more.last());
                },
            }
        },
        QueryStmt::Negation(node) => {
            lemma_negated(cx, st, node);
            let (s1, found) = collecting::negated(cx, st, node);
            if let Some(tested) = found {
                lemma_push(cx, stmts, Stmt::Negate(tested));
            }
        },
    }
}

proof fn lemma_body(cx: Cx, st: St, body: Seq<QueryStmt>, k: nat)
    requires
        cx.ast.wf(),
        k <= body.len(),
        forall|i: int|
            0 <= i < body.len() ==> syntax::stmt_below(
                #[trigger] body[i],
                cx.ast.tree().kinds().len(),
            ),
        scope::within(st, 0),
        fine(cx, st),
        collecting::collected_body(cx, st, body, k).0.sealed,
    ensures
        ({
            let (after, more) = collecting::collected_body(cx, st, body, k);
            well(cx, after, more)
        }),
    decreases k,
{
    if k > 0 {
        let j = (k - 1) as nat;
        let (s1, q1) = collecting::collected_body(cx, st, body, j);
        scope::lemma_body_gathers(cx, st, body, j);
        assert(syntax::stmt_below(body[k - 1], cx.ast.tree().kinds().len()));
        scope::lemma_stmt_gathers(cx, s1, q1, body[k - 1]);
        lemma_body(cx, st, body, j);
        lemma_stmt(cx, s1, q1, body[k - 1]);
    }
}

// ---- what only reports ------------------------------------------------------

pub proof fn lemma_claim_names(
    st: St,
    claims: Claimed,
    names: Seq<Symbol>,
    k: nat,
    span: NodeSpan,
    is_row: bool,
)
    ensures
        same_places(st, collecting::claim_names(st, claims, names, k, span, is_row).0),
        collecting::claim_names(st, claims, names, k, span, is_row).1.capturable
            == claims.capturable,
    decreases k,
{
    if k > 0 {
        lemma_claim_names(st, claims, names, (k - 1) as nat, span, is_row);
    }
}

pub proof fn lemma_claimed(cx: Cx, st: St, stmts: Seq<Stmt>, k: nat)
    ensures
        same_places(st, collecting::claimed(cx, st, stmts, k).0),
        collecting::claimed(cx, st, stmts, k).1.capturable == collecting::capturable(
            cx,
            stmts,
            stmts.len(),
        ),
    decreases k,
{
    if k > 0 {
        lemma_claimed(cx, st, stmts, (k - 1) as nat);
        let (s1, c1) = collecting::claimed(cx, st, stmts, (k - 1) as nat);
        match stmts[k - 1] {
            Stmt::Scan(scan) => if let Some(row) = scan.row {
                lemma_claim_names(s1, c1, seq![row], 1, scan.span, true);
            },
            Stmt::Alias(alias) => {
                let names = model::bare_variables(cx, alias.pattern);
                lemma_claim_names(s1, c1, names, names.len(), alias.span, false);
            },
            _ => {},
        }
    }
}

proof fn lemma_scan_field(
    cx: Cx,
    st: St,
    node: NodeId,
    ty: PredicateTy,
    claims: Claimed,
    occurs: Occurs,
)
    ensures
        same_places(st, collecting::scan_field(cx, st, node, ty, claims, occurs).0),
    decreases node.0, 1nat, 0nat,
{
    if let ExprKind::Record(fields) = cx.ast.kind(node) {
        if let PredicateTy::Record(tys) = ty {
            lemma_scan_fields(cx, st, node, fields@, tys@, tys@.len(), claims, occurs);
        }
    }
}

proof fn lemma_scan_fields(
    cx: Cx,
    st: St,
    node: NodeId,
    fields: Seq<(Symbol, NodeId)>,
    tys: Seq<(NameKey, PredicateTy)>,
    k: nat,
    claims: Claimed,
    occurs: Occurs,
)
    ensures
        same_places(st, collecting::scan_fields(cx, st, node, fields, tys, k, claims, occurs).0),
    decreases node.0, 0nat, k,
{
    if k > 0 {
        lemma_scan_fields(cx, st, node, fields, tys, (k - 1) as nat, claims, occurs);
        let (s1, o1) = collecting::scan_fields(
            cx,
            st,
            node,
            fields,
            tys,
            (k - 1) as nat,
            claims,
            occurs,
        );
        if let Some(piece) = model::field_pattern(fields, Symbol::Schema(tys[k - 1].0)) {
            if piece.0 < node.0 {
                lemma_scan_field(cx, s1, piece, tys[k - 1].1, claims, o1);
            }
        }
    }
}

proof fn lemma_scan_key(cx: Cx, st: St, alt: Alt, claims: Claimed, occurs: Occurs)
    ensures
        same_places(st, collecting::scan_key(cx, st, alt, claims, occurs).0),
{
    if let Some(declared) = cx.schema.predicate(alt.predicate) {
        lemma_scan_field(cx, st, alt.key, declared.key, claims, occurs);
    }
}

proof fn lemma_scan_branches(cx: Cx, st: St, claims: Claimed, alts: Seq<Alt>, k: nat)
    ensures
        same_places(st, collecting::scan_branches(cx, st, claims, alts, k).0),
    decreases k,
{
    if k > 0 {
        lemma_scan_branches(cx, st, claims, alts, (k - 1) as nat);
        let s1 = collecting::scan_branches(cx, st, claims, alts, (k - 1) as nat).0;
        lemma_scan_key(cx, s1, alts[k - 1], claims, Occurs::none());
    }
}

proof fn lemma_scan_alts(
    cx: Cx,
    st: St,
    claims: Claimed,
    alts: Seq<Alt>,
    k: nat,
    occurs: Occurs,
)
    ensures
        same_places(st, collecting::scan_alts(cx, st, claims, alts, k, occurs).0),
    decreases k,
{
    if k > 0 {
        lemma_scan_alts(cx, st, claims, alts, (k - 1) as nat, occurs);
        let (s1, o1) = collecting::scan_alts(cx, st, claims, alts, (k - 1) as nat, occurs);
        lemma_scan_key(cx, s1, alts[k - 1], claims, o1);
    }
}

/// Walking the statements names no place.
pub proof fn lemma_deps(cx: Cx, st: St, claims: Claimed, stmts: Seq<Stmt>, k: nat)
    ensures
        same_places(st, collecting::deps_of(cx, st, claims, stmts, k).0),
    decreases k,
{
    if k > 0 {
        lemma_deps(cx, st, claims, stmts, (k - 1) as nat);
        let s1 = collecting::deps_of(cx, st, claims, stmts, (k - 1) as nat).0;
        match stmts[k - 1] {
            Stmt::Scan(scan) => lemma_scan_branches(
                cx,
                s1,
                claims,
                scan.alternatives@,
                scan.alternatives@.len(),
            ),
            Stmt::Negate(tested) => lemma_scan_alts(
                cx,
                s1,
                claims,
                tested.alternatives@,
                tested.alternatives@.len(),
                Occurs::none(),
            ),
            _ => {},
        }
    }
}

proof fn lemma_unbound_reads(
    st: St,
    known: Seq<Symbol>,
    reads: Seq<Symbol>,
    k: nat,
    span: NodeSpan,
)
    ensures
        same_places(st, collecting::unbound_reads(st, known, reads, k, span)),
    decreases k,
{
    if k > 0 {
        lemma_unbound_reads(st, known, reads, (k - 1) as nat, span);
    }
}

pub proof fn lemma_negated_wildcards(
    st: St,
    known: Seq<Symbol>,
    stmts: Seq<Stmt>,
    deps: Seq<StmtDeps>,
    k: nat,
)
    ensures
        same_places(st, collecting::negated_wildcards(st, known, stmts, deps, k)),
    decreases k,
{
    if k > 0 {
        lemma_negated_wildcards(st, known, stmts, deps, (k - 1) as nat);
        let s1 = collecting::negated_wildcards(st, known, stmts, deps, (k - 1) as nat);
        if let Stmt::Negate(tested) = stmts[k - 1] {
            let reads = deps[k - 1].reads@;
            lemma_unbound_reads(s1, known, reads, reads.len(), tested.span);
        }
    }
}

pub proof fn lemma_scan_head(cx: Cx, st: St, node: NodeId, occurs: Occurs)
    ensures
        same_places(st, collecting::scan_head(cx, st, node, occurs).0),
    decreases node.0, 1nat, 0nat,
{
    if let ExprKind::Record(fields) = cx.ast.kind(node) {
        lemma_scan_head_fields(cx, st, node, fields@, fields@.len(), occurs);
    }
}

proof fn lemma_scan_head_fields(
    cx: Cx,
    st: St,
    node: NodeId,
    fields: Seq<(Symbol, NodeId)>,
    k: nat,
    occurs: Occurs,
)
    ensures
        same_places(st, collecting::scan_head_fields(cx, st, node, fields, k, occurs).0),
    decreases node.0, 0nat, k,
{
    if k > 0 {
        lemma_scan_head_fields(cx, st, node, fields, (k - 1) as nat, occurs);
        let (s1, o1) = collecting::scan_head_fields(
            cx,
            st,
            node,
            fields,
            (k - 1) as nat,
            occurs,
        );
        if fields[k - 1].1.0 < node.0 {
            lemma_scan_head(cx, s1, fields[k - 1].1, o1);
        }
    }
}

// ---- all of it --------------------------------------------------------------

proof fn lemma_oriented(cx: Cx, stmts: Seq<Stmt>)
    requires
        collect::stmts_ok(cx, stmts),
    ensures
        collect::stmts_ok(cx, collecting::all_oriented(cx, stmts)),
{
    let all = collecting::all_oriented(cx, stmts);
    assert forall|i: int| 0 <= i < all.len() implies collect::stmt_ok(cx, #[trigger] all[i]) by {
        assert(collect::stmt_ok(cx, stmts[i]));
    }
}

/// What collecting a query of a well-formed tree leaves: constants and prefixes, and
/// statements whose patterns are in the tree; and where the claims and the walk over the
/// statements began.
pub proof fn lemma_collected(cx: Cx, st: St)
    requires
        cx.ast.wf(),
        scope::within(st, 0),
        fine(cx, st),
        collecting::collected(cx, st).1 is Some,
        collecting::collected(cx, st).0.sealed,
    ensures
        ({
            let (after, found) = collecting::collected(cx, st);
            &&& fine(cx, after)
            &&& collect::stmts_ok(cx, found->0.stmts)
        }),
{
    let query = cx.ast.root();
    let (s1, q1) = collecting::collected_body(cx, st, query.body@, query.body@.len());
    scope::lemma_body_gathers(cx, st, query.body@, query.body@.len());
    let (s2, q2) = collecting::hoist_node(cx, s1, q1, query.head);
    scope::lemma_hoist_node_gathers(cx, s1, q1, query.head);
    let stmts = collecting::all_oriented(cx, q2);
    let (s3, claims) = collecting::claimed(cx, s2, stmts, stmts.len());
    scope::lemma_claimed_gathers(cx, s2, stmts, stmts.len());
    let (s4, deps) = collecting::deps_of(cx, s3, claims, stmts, stmts.len());
    scope::lemma_deps_gather(cx, s3, claims, stmts, stmts.len());
    let known = collecting::all_captures(deps, deps.len()) + collecting::folded(
        s4.bindings,
        s4.bindings.len(),
    );
    let s5 = collecting::negated_wildcards(s4, known, stmts, deps, stmts.len());
    scope::lemma_negated_wildcards_gather(s4, known, stmts, deps, stmts.len());
    scope::lemma_scan_head_gathers(cx, s5, query.head, Occurs::none());
    lemma_body(cx, st, query.body@, query.body@.len());
    lemma_hoist_node(cx, s1, q1, query.head);
    lemma_oriented(cx, q2);
    lemma_claimed(cx, s2, stmts, stmts.len());
    lemma_deps(cx, s3, claims, stmts, stmts.len());
    lemma_negated_wildcards(s4, known, stmts, deps, stmts.len());
    lemma_scan_head(cx, s5, query.head, Occurs::none());
}

} // verus!
