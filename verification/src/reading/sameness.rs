//! What a meaning depends on: the nodes of a tree and not the list of its statements, and what
//! is constrained and not in which order.
use vstd::prelude::*;

use super::orders;
use super::{Found, Sense, Thing, World};
use crate::flatten::model;
use crate::flatten::model::{Alt, Gen, Stmt};
use crate::layout;
use crate::plan::{Fact, Route};
use crate::reading;
use crate::schema::{NameKey, PredicateTy, Symbol};
use crate::syntax::{Ast, ExprKind, FieldRef, NodeId};
use crate::tuple::Datum;

verus! {

/// Two queries over the same nodes and the same facts: they say the same in the head, give
/// each nested pattern the same row, and constrain each variable by the same prefixes. What
/// stands in their bodies, and in which order, is left open.
pub open spec fn same_nodes(a: World, b: World) -> bool {
    &&& a.cx.ast.tree() == b.cx.ast.tree()
    &&& a.cx.ast.root().head == b.cx.ast.root().head
    &&& a.cx.schema == b.cx.schema
    &&& a.names == b.names
    &&& a.facts == b.facts
    &&& a.keys == b.keys
    &&& a.values == b.values
    &&& forall|node: NodeId| #[trigger]
        model::hoisted_row(a.hoisted, node) == model::hoisted_row(b.hoisted, node)
    &&& forall|one: (Symbol, NodeId)| #[trigger]
        a.constraints.contains(one) == b.constraints.contains(one)
}

proof fn lemma_constant(a: Ast, b: Ast, node: NodeId)
    requires
        a.tree() == b.tree(),
    ensures
        a.constant(node) == b.constant(node),
    decreases node.0,
{
    assert(a.kind(node) == b.kind(node));
    if let ExprKind::Record(fields) = a.kind(node) {
        assert forall|i: int| 0 <= i < fields@.len() && (#[trigger] fields@[i]).1.0 < node.0 implies
            a.constant(fields@[i].1) == b.constant(fields@[i].1) by {
            lemma_constant(a, b, fields@[i].1);
        }
    }
}

proof fn lemma_constants(a: World, b: World)
    requires
        same_nodes(a, b),
    ensures
        forall|node: NodeId| #[trigger] a.cx.ast.constant(node) == b.cx.ast.constant(node),
        forall|node: NodeId| #[trigger] a.cx.ast.kind(node) == b.cx.ast.kind(node),
{
    assert forall|node: NodeId| #[trigger] a.cx.ast.constant(node) == b.cx.ast.constant(node) by {
        lemma_constant(a.cx.ast, b.cx.ast, node);
    }
}

proof fn lemma_piece(a: World, b: World, thing: Thing, name: Symbol)
    requires
        same_nodes(a, b),
    ensures
        reading::piece(a, thing, name) == reading::piece(b, thing, name),
{
    lemma_constants(a, b);
    assert(reading::followed(a, thing) == reading::followed(b, thing));
    if let Thing::Const(folded) = thing {
        assert(a.cx.ast.kind(folded) == b.cx.ast.kind(folded));
    }
}

proof fn lemma_thing_of(a: World, b: World, sense: Sense, node: NodeId)
    requires
        same_nodes(a, b),
    ensures
        reading::thing_of(a, sense, node) == reading::thing_of(b, sense, node),
    decreases node.0,
{
    lemma_constants(a, b);
    assert(a.cx.ast.constant(node) == b.cx.ast.constant(node));
    assert(a.cx.ast.kind(node) == b.cx.ast.kind(node));
    if let ExprKind::Access(field, base) = a.cx.ast.kind(node) {
        if base.0 < node.0 {
            lemma_thing_of(a, b, sense, base);
            if let Some(thing) = reading::thing_of(a, sense, base) {
                assert(reading::followed(a, thing) == reading::followed(b, thing));
                if let Some(place) = reading::followed(a, thing) {
                    if let FieldRef::Key(name) = field {
                        lemma_piece(a, b, place, name);
                    }
                }
            }
        }
    }
    if let ExprKind::Fact(_, _) = a.cx.ast.kind(node) {
        assert(model::hoisted_row(a.hoisted, node) == model::hoisted_row(b.hoisted, node));
    }
}

proof fn lemma_patterns(constraints: Seq<(Symbol, NodeId)>, symbol: Symbol, node: NodeId)
    ensures
        model::patterns_of(constraints, symbol).contains(node) == constraints.contains(
            (symbol, node),
        ),
    decreases constraints.len(),
{
    if constraints.len() > 0 {
        let less = constraints.drop_last();
        lemma_patterns(less, symbol, node);
        let before = model::patterns_of(less, symbol);
        let one = (symbol, node);
        assert(constraints =~= less.push(constraints.last()));
        assert(constraints.contains(one) == (less.contains(one) || constraints.last() == one)) by {
            if less.contains(one) {
                let i = choose|i: int| 0 <= i < less.len() && less[i] == one;
                assert(constraints[i] == one);
            }
            if constraints.contains(one) {
                let i = choose|i: int| 0 <= i < constraints.len() && constraints[i] == one;
                if i < less.len() {
                    assert(less[i] == one);
                }
            }
            assert(constraints[constraints.len() - 1] == constraints.last());
        }
        if constraints.last().0 == symbol {
            let all = before.push(constraints.last().1);
            assert(all[before.len() as int] == constraints.last().1);
            if before.contains(node) {
                let i = choose|i: int| 0 <= i < before.len() && before[i] == node;
                assert(all[i] == node);
            }
            if all.contains(node) {
                let i = choose|i: int| 0 <= i < all.len() && all[i] == node;
                if i < before.len() {
                    assert(before[i] == node);
                }
            }
        }
    }
}

proof fn lemma_allowed_by(a: World, b: World, symbol: Symbol, v: Datum)
    requires
        same_nodes(a, b),
        reading::allowed(a, symbol, v),
    ensures
        reading::allowed(b, symbol, v),
{
    let ours = model::patterns_of(a.constraints, symbol);
    let theirs = model::patterns_of(b.constraints, symbol);
    assert forall|i: int| 0 <= i < theirs.len() implies (b.cx.ast.kind(
        #[trigger] theirs[i],
    ) matches ExprKind::Prefix(text) && reading::begins(b.names, text, v)) by {
        assert(theirs.contains(theirs[i]));
        lemma_patterns(b.constraints, symbol, theirs[i]);
        lemma_patterns(a.constraints, symbol, theirs[i]);
        assert(a.constraints.contains((symbol, theirs[i])) == b.constraints.contains(
            (symbol, theirs[i]),
        ));
        let j = choose|j: int| 0 <= j < ours.len() && ours[j] == theirs[i];
        assert(a.cx.ast.kind(ours[j]) == b.cx.ast.kind(theirs[i]));
    }
}

proof fn lemma_turned(a: World, b: World)
    requires
        same_nodes(a, b),
    ensures
        same_nodes(b, a),
{
    assert forall|node: NodeId| #[trigger]
        model::hoisted_row(b.hoisted, node) == model::hoisted_row(a.hoisted, node) by {
        assert(model::hoisted_row(a.hoisted, node) == model::hoisted_row(b.hoisted, node));
    }
    assert forall|one: (Symbol, NodeId)| #[trigger]
        b.constraints.contains(one) == a.constraints.contains(one) by {
        assert(a.constraints.contains(one) == b.constraints.contains(one));
    }
}

proof fn lemma_allowed(a: World, b: World, symbol: Symbol, v: Datum)
    requires
        same_nodes(a, b),
    ensures
        reading::allowed(a, symbol, v) == reading::allowed(b, symbol, v),
{
    lemma_turned(a, b);
    if reading::allowed(a, symbol, v) {
        lemma_allowed_by(a, b, symbol, v);
    }
    if reading::allowed(b, symbol, v) {
        lemma_allowed_by(b, a, symbol, v);
    }
}

proof fn lemma_means(a: World, b: World, sense: Sense, node: NodeId, ty: PredicateTy, v: Datum)
    requires
        same_nodes(a, b),
    ensures
        reading::means(a, sense, node, ty, v) == reading::means(b, sense, node, ty, v),
    decreases model::rank(a.cx, node), node.0, 1nat, 0nat,
{
    lemma_constants(a, b);
    assert(a.cx.ast.constant(node) == b.cx.ast.constant(node));
    assert(a.cx.ast.kind(node) == b.cx.ast.kind(node));
    match a.cx.ast.kind(node) {
        ExprKind::Wildcard => {},
        ExprKind::Lit(_) => {},
        ExprKind::Prefix(_) => {},
        ExprKind::Record(fields) => {
            if let (PredicateTy::Record(tys), Datum::Record(values)) = (ty, v) {
                lemma_means_fields(a, b, sense, node, fields@, tys@, values, tys@.len());
            }
        },
        kind => {
            if kind is Var && sense(kind->Var_0) is None {
                lemma_allowed(a, b, kind->Var_0, v);
            } else {
                lemma_thing_of(a, b, sense, node);
                if let Some(Thing::Const(folded)) = reading::thing_of(a, sense, node) {
                    assert(a.cx.ast.constant(folded) == b.cx.ast.constant(folded));
                    if a.cx.ast.constant(folded) {
                        lemma_means(a, b, sense, folded, ty, v);
                    }
                }
            }
        },
    }
}

proof fn lemma_means_fields(
    a: World,
    b: World,
    sense: Sense,
    node: NodeId,
    fields: Seq<(Symbol, NodeId)>,
    tys: Seq<(NameKey, PredicateTy)>,
    values: Seq<(Seq<char>, Datum)>,
    k: nat,
)
    requires
        same_nodes(a, b),
    ensures
        reading::means_fields(a, sense, node, fields, tys, values, k) == reading::means_fields(
            b,
            sense,
            node,
            fields,
            tys,
            values,
            k,
        ),
    decreases model::rank(a.cx, node), node.0, 0nat, k,
{
    if k > 0 {
        lemma_constants(a, b);
        lemma_means_fields(a, b, sense, node, fields, tys, values, (k - 1) as nat);
        if let Some(inner) = model::field_pattern(fields, Symbol::Schema(tys[k - 1].0)) {
            assert(model::below(a.cx, node, inner) == model::below(b.cx, node, inner));
            if model::below(a.cx, node, inner) {
                lemma_means(a, b, sense, inner, tys[k - 1].1, values[k - 1].1);
            }
        }
    }
}

proof fn lemma_means_key(a: World, b: World, sense: Sense, node: NodeId, ty: PredicateTy, v: Datum)
    requires
        same_nodes(a, b),
    ensures
        reading::means_key(a, sense, node, ty, v) == reading::means_key(b, sense, node, ty, v),
{
    lemma_constants(a, b);
    assert(a.cx.ast.kind(node) == b.cx.ast.kind(node));
    lemma_means(a, b, sense, node, ty, v);
    lemma_thing_of(a, b, sense, node);
    if let PredicateTy::Record(tys) = ty {
        if let Some(thing) = reading::thing_of(a, sense, node) {
            assert forall|i: int| 0 <= i < tys@.len() implies reading::field_is(
                a,
                sense,
                reading::piece(a, thing, Symbol::Schema((#[trigger] tys@[i]).0)),
                tys@[i].1,
                v->Record_0[i].1,
            ) == reading::field_is(
                b,
                sense,
                reading::piece(b, thing, Symbol::Schema(tys@[i].0)),
                tys@[i].1,
                v->Record_0[i].1,
            ) by {
                lemma_piece(a, b, thing, Symbol::Schema(tys@[i].0));
                if let Some(Thing::Const(folded)) = reading::piece(
                    a,
                    thing,
                    Symbol::Schema(tys@[i].0),
                ) {
                    assert(a.cx.ast.constant(folded) == b.cx.ast.constant(folded));
                    lemma_means(a, b, sense, folded, tys@[i].1, v->Record_0[i].1);
                }
            }
        }
    }
}

proof fn lemma_matches(a: World, b: World, sense: Sense, alt: Alt, fact: Fact)
    requires
        same_nodes(a, b),
        reading::matches(a, sense, alt, fact),
    ensures
        reading::matches(b, sense, alt, fact),
{
    let declared = a.cx.schema.predicate(alt.predicate)->0;
    let d = choose|d: Datum|
        #[trigger] layout::key_is(a.names, fact.key(), declared.key, d)
            && reading::means_key(a, sense, alt.key, declared.key, d);
    lemma_means_key(a, b, sense, alt.key, declared.key, d);
    assert(layout::key_is(b.names, fact.key(), declared.key, d));
}

proof fn lemma_matched(a: World, b: World, sense: Sense, alt: Alt)
    requires
        same_nodes(a, b),
    ensures
        reading::matched(a, sense, alt) == reading::matched(b, sense, alt),
{
    lemma_turned(a, b);
    let ours = |fact: Fact| reading::matches(a, sense, alt, fact);
    let theirs = |fact: Fact| reading::matches(b, sense, alt, fact);
    assert forall|fact: Fact| #[trigger] ours(fact) == theirs(fact) by {
        if ours(fact) {
            lemma_matches(a, b, sense, alt, fact);
        }
        if theirs(fact) {
            lemma_matches(b, a, sense, alt, fact);
        }
    }
    assert(ours =~= theirs);
}

proof fn lemma_denied(a: World, b: World, sense: Sense, alts: Seq<Alt>)
    requires
        same_nodes(a, b),
    ensures
        reading::denied(a, sense, alts) == reading::denied(b, sense, alts),
{
    assert forall|i: int| 0 <= i < alts.len() implies reading::matched(
        a,
        sense,
        #[trigger] alts[i],
    ) == reading::matched(b, sense, alts[i]) by {
        lemma_matched(a, b, sense, alts[i]);
    }
}

proof fn lemma_takes(a: World, b: World, sense: Sense, node: NodeId, ty: PredicateTy, path: Route)
    requires
        same_nodes(a, b),
    ensures
        reading::takes(a, sense, node, ty, path) == reading::takes(b, sense, node, ty, path),
    decreases node.0, 1nat, 0nat,
{
    assert(a.cx.ast.kind(node) == b.cx.ast.kind(node));
    if let (ExprKind::Record(fields), PredicateTy::Record(tys)) = (a.cx.ast.kind(node), ty) {
        lemma_takes_fields(a, b, sense, node, fields@, tys@, tys@.len(), path);
    }
}

proof fn lemma_takes_fields(
    a: World,
    b: World,
    sense: Sense,
    node: NodeId,
    fields: Seq<(Symbol, NodeId)>,
    tys: Seq<(NameKey, PredicateTy)>,
    k: nat,
    path: Route,
)
    requires
        same_nodes(a, b),
    ensures
        reading::takes_fields(a, sense, node, fields, tys, k, path) == reading::takes_fields(
            b,
            sense,
            node,
            fields,
            tys,
            k,
            path,
        ),
    decreases node.0, 0nat, k,
{
    if k > 0 {
        lemma_constants(a, b);
        lemma_takes_fields(a, b, sense, node, fields, tys, (k - 1) as nat, path);
        if let Some(inner) = model::field_pattern(fields, Symbol::Schema(tys[k - 1].0)) {
            assert(model::below(a.cx, node, inner) == model::below(b.cx, node, inner));
            if model::below(a.cx, node, inner) {
                lemma_takes(
                    a,
                    b,
                    sense,
                    inner,
                    tys[k - 1].1,
                    Route::of(path.top(), path.inner().push((k - 1) as usize)),
                );
            }
        }
    }
}

proof fn lemma_takes_top(
    a: World,
    b: World,
    sense: Sense,
    fields: Seq<(Symbol, NodeId)>,
    tys: Seq<(NameKey, PredicateTy)>,
    k: nat,
)
    requires
        same_nodes(a, b),
    ensures
        reading::takes_top(a, sense, fields, tys, k) == reading::takes_top(
            b,
            sense,
            fields,
            tys,
            k,
        ),
    decreases k,
{
    if k > 0 {
        lemma_takes_top(a, b, sense, fields, tys, (k - 1) as nat);
        if let Some(inner) = model::field_pattern(fields, Symbol::Schema(tys[k - 1].0)) {
            lemma_takes(
                a,
                b,
                sense,
                inner,
                tys[k - 1].1,
                Route::of((k - 1) as usize, Seq::empty()),
            );
        }
    }
}

proof fn lemma_takes_key(a: World, b: World, sense: Sense, node: NodeId, ty: PredicateTy)
    requires
        same_nodes(a, b),
    ensures
        reading::takes_key(a, sense, node, ty) == reading::takes_key(b, sense, node, ty),
{
    assert(a.cx.ast.kind(node) == b.cx.ast.kind(node));
    lemma_takes(a, b, sense, node, ty, Route::of(0, Seq::empty()));
    if let (PredicateTy::Record(tys), ExprKind::Record(fields)) = (ty, a.cx.ast.kind(node)) {
        lemma_takes_top(a, b, sense, fields@, tys@, tys@.len());
    }
}

proof fn lemma_shared(a: World, b: World, sense: Sense, alts: Seq<Alt>, k: nat)
    requires
        same_nodes(a, b),
    ensures
        reading::shared(a, sense, alts, k) == reading::shared(b, sense, alts, k),
    decreases k,
{
    if k > 0 {
        let last = alts[k - 1];
        lemma_takes_key(a, b, sense, last.key, reading::key_of(a, last));
        lemma_shared(a, b, sense, alts, (k - 1) as nat);
    }
}

proof fn lemma_with_name(a: World, b: World, found: Found, pattern: NodeId, thing: Thing)
    requires
        same_nodes(a, b),
    ensures
        reading::with_name(a, found, pattern, thing) == reading::with_name(
            b,
            found,
            pattern,
            thing,
        ),
    decreases pattern.0, 1nat, 0nat,
{
    assert(a.cx.ast.kind(pattern) == b.cx.ast.kind(pattern));
    if let ExprKind::Record(fields) = a.cx.ast.kind(pattern) {
        lemma_with_pieces(a, b, found, pattern, thing, fields@, fields@.len());
    }
}

proof fn lemma_with_pieces(
    a: World,
    b: World,
    found: Found,
    pattern: NodeId,
    thing: Thing,
    fields: Seq<(Symbol, NodeId)>,
    k: nat,
)
    requires
        same_nodes(a, b),
    ensures
        reading::with_pieces(a, found, pattern, thing, fields, k) == reading::with_pieces(
            b,
            found,
            pattern,
            thing,
            fields,
            k,
        ),
    decreases pattern.0, 0nat, k,
{
    if k > 0 {
        lemma_with_pieces(a, b, found, pattern, thing, fields, (k - 1) as nat);
        lemma_piece(a, b, thing, fields[k - 1].0);
        let before = reading::with_pieces(a, found, pattern, thing, fields, (k - 1) as nat);
        if let Some(inner) = reading::piece(a, thing, fields[k - 1].0) {
            if fields[k - 1].1.0 < pattern.0 {
                lemma_with_name(a, b, before, fields[k - 1].1, inner);
            }
        }
    }
}

/// Bodies are read alike against two queries over the same nodes.
pub proof fn lemma_ways(
    a: World,
    b: World,
    stmts: Seq<Stmt>,
    order: Seq<usize>,
    k: nat,
    found: Found,
)
    requires
        same_nodes(a, b),
    ensures
        reading::ways(a, stmts, order, k, found) == reading::ways(b, stmts, order, k, found),
    decreases order.len() - k, 2nat, 0nat,
{
    if k < order.len() {
        match stmts[order[k as int] as int] {
            Stmt::Scan(scan) => lemma_over_alts(
                a,
                b,
                stmts,
                order,
                k,
                found,
                scan.alternatives@,
                scan,
            ),
            Stmt::Negate(tested) => {
                lemma_denied(a, b, found.sense, tested.alternatives@);
                lemma_ways(a, b, stmts, order, k + 1, found);
            },
            Stmt::Alias(alias) => {
                lemma_thing_of(a, b, found.sense, alias.value);
                let next = match reading::thing_of(a, found.sense, alias.value) {
                    Some(thing) => {
                        lemma_with_name(a, b, found, alias.pattern, thing);
                        reading::with_name(a, found, alias.pattern, thing)
                    },
                    None => found,
                };
                lemma_ways(a, b, stmts, order, k + 1, next);
            },
            Stmt::Constrain(_) => lemma_ways(a, b, stmts, order, k + 1, found),
        }
    }
}

proof fn lemma_over_alts(
    a: World,
    b: World,
    stmts: Seq<Stmt>,
    order: Seq<usize>,
    k: nat,
    found: Found,
    alts: Seq<Alt>,
    scan: Gen,
)
    requires
        same_nodes(a, b),
    ensures
        reading::over_alts(a, stmts, order, k, found, alts, scan) == reading::over_alts(
            b,
            stmts,
            order,
            k,
            found,
            alts,
            scan,
        ),
    decreases order.len() - k, 1nat, alts.len(),
{
    if k < order.len() && alts.len() > 0 {
        lemma_matched(a, b, found.sense, alts[0]);
        let left = reading::matched(a, found.sense, alts[0]);
        lemma_over_facts(a, b, stmts, order, k, found, alts[0], scan, left);
        lemma_over_alts(a, b, stmts, order, k, found, alts.skip(1), scan);
    }
}

proof fn lemma_over_facts(
    a: World,
    b: World,
    stmts: Seq<Stmt>,
    order: Seq<usize>,
    k: nat,
    found: Found,
    alt: Alt,
    scan: Gen,
    left: Seq<Fact>,
)
    requires
        same_nodes(a, b),
    ensures
        reading::over_facts(a, stmts, order, k, found, alt, scan, left) == reading::over_facts(
            b,
            stmts,
            order,
            k,
            found,
            alt,
            scan,
            left,
        ),
    decreases order.len() - k, 0nat, left.len(),
{
    if k < order.len() && left.len() > 0 {
        let alts = scan.alternatives@;
        lemma_shared(a, b, found.sense, alts, alts.len());
        let next = reading::with_fact(a, found, scan, alt, left[0]);
        lemma_ways(a, b, stmts, order, k + 1, next);
        lemma_over_facts(a, b, stmts, order, k, found, alt, scan, left.skip(1));
    }
}

proof fn lemma_kept_by(a: World, b: World, found: Found)
    requires
        same_nodes(a, b),
        reading::kept(a, found),
    ensures
        reading::kept(b, found),
{
    assert forall|i: int| 0 <= i < b.constraints.len() implies reading::satisfied(
        b,
        found.sense,
        (#[trigger] b.constraints[i]).0,
        b.constraints[i].1,
    ) by {
        let one = b.constraints[i];
        assert(b.constraints.contains(one));
        assert(a.constraints.contains(one) == b.constraints.contains(one));
        let j = choose|j: int| 0 <= j < a.constraints.len() && a.constraints[j] == one;
        assert(reading::satisfied(a, found.sense, a.constraints[j].0, a.constraints[j].1));
        assert(a.cx.ast.kind(one.1) == b.cx.ast.kind(one.1));
        if let Some(Thing::Const(folded)) = (found.sense)(one.0) {
            assert(a.cx.ast.kind(folded) == b.cx.ast.kind(folded));
        }
    }
}

/// The answers are the same.
pub proof fn lemma_meant(a: World, b: World, stmts: Seq<Stmt>, order: Seq<usize>, found: Found)
    requires
        same_nodes(a, b),
    ensures
        reading::meant(a, stmts, order, found) == reading::meant(b, stmts, order, found),
{
    lemma_turned(a, b);
    lemma_ways(a, b, stmts, order, 0, found);
    let ours = |way: Found| reading::kept(a, way);
    let theirs = |way: Found| reading::kept(b, way);
    assert forall|way: Found| #[trigger] ours(way) == theirs(way) by {
        if ours(way) {
            lemma_kept_by(a, b, way);
        }
        if theirs(way) {
            lemma_kept_by(b, a, way);
        }
    }
    assert(ours =~= theirs);
}

proof fn lemma_value(a: World, b: World, sense: Sense, node: NodeId)
    requires
        same_nodes(a, b),
    ensures
        reading::value(a, sense, node) == reading::value(b, sense, node),
    decreases model::rank(a.cx, node), node.0, 1nat, 0nat,
{
    lemma_constants(a, b);
    assert(a.cx.ast.constant(node) == b.cx.ast.constant(node));
    assert(a.cx.ast.kind(node) == b.cx.ast.kind(node));
    match a.cx.ast.kind(node) {
        ExprKind::Lit(_) => {},
        ExprKind::Record(fields) => {
            lemma_value_fields(a, b, sense, node, fields@, fields@.len());
        },
        _ => {
            lemma_thing_of(a, b, sense, node);
            if let Some(thing) = reading::thing_of(a, sense, node) {
                if let Thing::Const(folded) = thing {
                    assert(a.cx.ast.constant(folded) == b.cx.ast.constant(folded));
                    if a.cx.ast.constant(folded) && !a.cx.ast.constant(node) {
                        lemma_value(a, b, sense, folded);
                    }
                } else {
                    assert(reading::thing_value(a, thing) == reading::thing_value(b, thing));
                }
            }
        },
    }
}

proof fn lemma_value_fields(
    a: World,
    b: World,
    sense: Sense,
    node: NodeId,
    fields: Seq<(Symbol, NodeId)>,
    k: nat,
)
    requires
        same_nodes(a, b),
    ensures
        reading::value_fields(a, sense, node, fields, k) == reading::value_fields(
            b,
            sense,
            node,
            fields,
            k,
        ),
    decreases model::rank(a.cx, node), node.0, 0nat, k,
{
    if k > 0 {
        lemma_constants(a, b);
        lemma_value_fields(a, b, sense, node, fields, (k - 1) as nat);
        assert(model::below(a.cx, node, fields[k - 1].1) == model::below(
            b.cx,
            node,
            fields[k - 1].1,
        ));
        if model::below(a.cx, node, fields[k - 1].1) {
            lemma_value(a, b, sense, fields[k - 1].1);
        }
    }
}

/// Readings say the same rows.
pub proof fn lemma_rows(a: World, b: World, ways: Seq<Found>)
    requires
        same_nodes(a, b),
    ensures
        orders::rows(a, ways) == orders::rows(b, ways),
{
    let head = a.cx.ast.root().head;
    let ours = ways.map_values(|way: Found| reading::value(a, way.sense, a.cx.ast.root().head));
    let theirs = ways.map_values(|way: Found| reading::value(b, way.sense, b.cx.ast.root().head));
    assert forall|i: int| 0 <= i < ways.len() implies ours[i] == theirs[i] by {
        lemma_value(a, b, ways[i].sense, head);
    }
    assert(ours =~= theirs);
}

} // verus!
