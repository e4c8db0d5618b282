//! Loop orders: every one that flattens answers the same rows.
use vstd::multiset::Multiset;
use vstd::prelude::*;

use super::answering;
use super::answering::Job;
use super::collecting;
use super::collecting::{Claimed, Gathered, Occurs};
use super::emitting;
use super::emitting::{Built, Compiled};
use super::filtering::Row;
use super::finishing;
use super::gathering;
use super::heads;
use super::laws;
use super::matching;
use super::model;
use super::model::{Alias, Alt, Compare, Cx, Gen, Slot, St, Stmt};
use super::running;
use super::scope;
use super::standing;
use crate::answers;
use crate::diag::Report;
use crate::error::ApertureError;
use crate::flatten;
use crate::iter;
use crate::machine;
use crate::plan::{Fact, FactStore, Route};
use crate::reading;
use crate::reading::joining;
use crate::reading::likeness;
use crate::reading::orders;
use crate::reading::typing;
use crate::reading::typing::{Form, Kind, Kinds};
use crate::reading::{Found, Place, Sense, World};
use crate::reorder;
use crate::schema::{NameKey, Names, PredicateId, PredicateTy, Symbol};
use crate::syntax;
use crate::syntax::{ExprKind, FieldRef, NodeId, NodeSpan};
use crate::tuple::Datum;

verus! {

// ---- what a walk reads ------------------------------------------------------

/// A variable that something else says what it is, at one of the places that are taken.
pub open spec fn claimed_at(
    claims: Claimed,
    taken: Seq<(Symbol, Place)>,
    symbol: Symbol,
) -> bool {
    exists|j: int|
        0 <= j < taken.len() && (#[trigger] taken[j]).0 == symbol && collecting::only_read(
            claims,
            typing::place_ty(taken[j].1),
            symbol,
        )
}

proof fn lemma_read(occurs: Occurs, var: Symbol, symbol: Symbol)
    ensures
        occurs.reads.contains(symbol) ==> occurs.read(var).reads.contains(symbol),
        occurs.capture(var).reads == occurs.reads,
        occurs.read(var).reads.contains(var),
{
    let after = occurs.read(var);
    if !occurs.reads.contains(var) {
        assert(after.reads[after.reads.len() - 1] == var);
        if occurs.reads.contains(symbol) {
            let i = choose|i: int| 0 <= i < occurs.reads.len() && occurs.reads[i] == symbol;
            assert(after.reads[i] == symbol);
        }
    }
}

proof fn lemma_scan_read(cx: Cx, st: St, node: NodeId, occurs: Occurs, symbol: Symbol)
    ensures
        occurs.reads.contains(symbol) ==> collecting::scan_read(
            cx,
            st,
            node,
            occurs,
        ).reads.contains(symbol),
{
    let root = model::chain_root(cx, node);
    match cx.ast.kind(root) {
        ExprKind::Var(var) => lemma_read(occurs, var, symbol),
        ExprKind::Fact(_, _) => if let Some(row) = model::hoisted_row(st.hoisted, root) {
            lemma_read(occurs, row, symbol);
        },
        _ => {},
    }
}

proof fn lemma_claimed_either(
    claims: Claimed,
    a: Seq<(Symbol, Place)>,
    b: Seq<(Symbol, Place)>,
    symbol: Symbol,
)
    requires
        claimed_at(claims, a + b, symbol),
    ensures
        claimed_at(claims, a, symbol) || claimed_at(claims, b, symbol),
{
    let all = a + b;
    let j = choose|j: int|
        0 <= j < all.len() && (#[trigger] all[j]).0 == symbol && collecting::only_read(
            claims,
            typing::place_ty(all[j].1),
            symbol,
        );
    if j < a.len() {
        assert(a[j] == all[j]);
    } else {
        assert(b[j - a.len()] == all[j]);
    }
}

/// A walk of a pattern reads on, and reads what something else says what it is.
proof fn lemma_field_reads(
    w: World,
    st: St,
    node: NodeId,
    ty: PredicateTy,
    path: Route,
    claims: Claimed,
    occurs: Occurs,
    symbol: Symbol,
)
    ensures
        ({
            let (after, seen) = collecting::scan_field(w.cx, st, node, ty, claims, occurs);
            &&& st.reports.len() <= after.reports.len()
            &&& after.hoisted == st.hoisted
            &&& occurs.reads.contains(symbol) ==> seen.reads.contains(symbol)
            &&& claimed_at(
                claims,
                reading::takes(w, typing::nothing(), node, ty, path),
                symbol,
            ) ==> seen.reads.contains(symbol)
        }),
    decreases node.0, 1nat, 0nat,
{
    let taken = reading::takes(w, typing::nothing(), node, ty, path);
    match w.cx.ast.kind(node) {
        ExprKind::Var(var) => {
            lemma_read(occurs, var, symbol);
            if claimed_at(claims, taken, symbol) {
                let j = choose|j: int|
                    0 <= j < taken.len() && (#[trigger] taken[j]).0 == symbol
                        && collecting::only_read(
                        claims,
                        typing::place_ty(taken[j].1),
                        symbol,
                    );
                assert(taken[j] == (var, Place::Field(path, ty)));
            }
        },
        ExprKind::Record(fields) => if let PredicateTy::Record(tys) = ty {
            lemma_fields_read(
                w,
                st,
                node,
                fields@,
                tys@,
                tys@.len(),
                path,
                claims,
                occurs,
                symbol,
            );
        },
        ExprKind::Access(FieldRef::Key(_), _) => lemma_scan_read(w.cx, st, node, occurs, symbol),
        ExprKind::Select(_, _) => lemma_scan_read(w.cx, st, node, occurs, symbol),
        ExprKind::Fact(_, _) => if let Some(row) = model::hoisted_row(st.hoisted, node) {
            lemma_read(occurs, row, symbol);
        },
        _ => {},
    }
}

#[verifier::rlimit(30)]
proof fn lemma_fields_read(
    w: World,
    st: St,
    node: NodeId,
    fields: Seq<(Symbol, NodeId)>,
    tys: Seq<(NameKey, PredicateTy)>,
    k: nat,
    path: Route,
    claims: Claimed,
    occurs: Occurs,
    symbol: Symbol,
)
    ensures
        ({
            let (after, seen) = collecting::scan_fields(
                w.cx,
                st,
                node,
                fields,
                tys,
                k,
                claims,
                occurs,
            );
            &&& st.reports.len() <= after.reports.len()
            &&& after.hoisted == st.hoisted
            &&& occurs.reads.contains(symbol) ==> seen.reads.contains(symbol)
            &&& claimed_at(
                claims,
                reading::takes_fields(w, typing::nothing(), node, fields, tys, k, path),
                symbol,
            ) ==> seen.reads.contains(symbol)
        }),
    decreases node.0, 0nat, k,
{
    if k > 0 {
        let j = (k - 1) as nat;
        lemma_fields_read(w, st, node, fields, tys, j, path, claims, occurs, symbol);
        let (s1, o1) = collecting::scan_fields(
            w.cx,
            st,
            node,
            fields,
            tys,
            j,
            claims,
            occurs,
        );
        let before = reading::takes_fields(w, typing::nothing(), node, fields, tys, j, path);
        let all = reading::takes_fields(w, typing::nothing(), node, fields, tys, k, path);
        let deeper = Route::of(path.top(), path.inner().push((k - 1) as usize));
        match model::field_pattern(fields, Symbol::Schema(tys[k - 1].0)) {
            Some(piece) => {
                if piece.0 < node.0 {
                    lemma_field_reads(
                        w,
                        s1,
                        piece,
                        tys[k - 1].1,
                        deeper,
                        claims,
                        o1,
                        symbol,
                    );
                }
                if claimed_at(claims, all, symbol) {
                    if model::below(w.cx, node, piece) {
                        lemma_claimed_either(
                            claims,
                            before,
                            reading::takes(w, typing::nothing(), piece, tys[k - 1].1, deeper),
                            symbol,
                        );
                    } else {
                        assert(all =~= before);
                    }
                }
            },
            None => {
                assert(all =~= before);
            },
        }
    } else {
        assert(reading::takes_fields(w, typing::nothing(), node, fields, tys, 0, path).len() == 0);
    }
}

#[verifier::rlimit(30)]
proof fn lemma_top_read(
    w: World,
    st: St,
    node: NodeId,
    fields: Seq<(Symbol, NodeId)>,
    tys: Seq<(NameKey, PredicateTy)>,
    k: nat,
    claims: Claimed,
    occurs: Occurs,
    symbol: Symbol,
)
    requires
        forall|i: int| 0 <= i < fields.len() ==> (#[trigger] fields[i]).1.0 < node.0,
    ensures
        ({
            let seen = collecting::scan_fields(
                w.cx,
                st,
                node,
                fields,
                tys,
                k,
                claims,
                occurs,
            ).1;
            &&& occurs.reads.contains(symbol) ==> seen.reads.contains(symbol)
            &&& claimed_at(
                claims,
                reading::takes_top(w, typing::nothing(), fields, tys, k),
                symbol,
            ) ==> seen.reads.contains(symbol)
        }),
    decreases k,
{
    if k > 0 {
        let j = (k - 1) as nat;
        lemma_top_read(w, st, node, fields, tys, j, claims, occurs, symbol);
        let (s1, o1) = collecting::scan_fields(
            w.cx,
            st,
            node,
            fields,
            tys,
            j,
            claims,
            occurs,
        );
        let before = reading::takes_top(w, typing::nothing(), fields, tys, j);
        let all = reading::takes_top(w, typing::nothing(), fields, tys, k);
        let name = Symbol::Schema(tys[k - 1].0);
        let deeper = Route::of((k - 1) as usize, Seq::empty());
        match model::field_pattern(fields, name) {
            Some(piece) => {
                gathering::lemma_field_pattern(fields, name);
                let i = choose|i: int| 0 <= i < fields.len() && (#[trigger] fields[i]).1 == piece;
                assert(fields[i].1.0 < node.0);
                lemma_field_reads(w, s1, piece, tys[k - 1].1, deeper, claims, o1, symbol);
                if claimed_at(claims, all, symbol) {
                    lemma_claimed_either(
                        claims,
                        before,
                        reading::takes(w, typing::nothing(), piece, tys[k - 1].1, deeper),
                        symbol,
                    );
                }
            },
            None => {
                assert(all =~= before);
            },
        }
    } else {
        assert(reading::takes_top(w, typing::nothing(), fields, tys, 0).len() == 0);
    }
}

/// What something else says what it is, a key pattern only reads.
proof fn lemma_key_reads(
    w: World,
    st: St,
    alt: Alt,
    claims: Claimed,
    occurs: Occurs,
    symbol: Symbol,
)
    requires
        w.cx.ast.wf(),
        w.cx.ast.has(alt.key),
        w.cx.schema.predicate(alt.predicate) is Some,
    ensures
        ({
            let (after, seen) = collecting::scan_key(w.cx, st, alt, claims, occurs);
            &&& st.reports.len() <= after.reports.len()
            &&& after.hoisted == st.hoisted
            &&& occurs.reads.contains(symbol) ==> seen.reads.contains(symbol)
            &&& claimed_at(claims, typing::occurring(w, alt), symbol) ==> seen.reads.contains(
                symbol,
            )
        }),
{
    let ty = reading::key_of(w, alt);
    let node = alt.key;
    let taken = typing::occurring(w, alt);
    let none = Seq::<usize>::empty();
    assert(syntax::children_below(w.cx.ast.tree().kinds()[node.0 as int], node.0 as nat));
    lemma_field_reads(w, st, node, ty, Route::of(0, none), claims, occurs, symbol);
    match (ty, w.cx.ast.kind(node)) {
        (PredicateTy::Record(tys), ExprKind::Record(fields)) => {
            lemma_top_read(w, st, node, fields@, tys@, tys@.len(), claims, occurs, symbol);
        },
        (PredicateTy::Record(_), ExprKind::Var(var)) => {
            if claimed_at(claims, taken, symbol) {
                let j = choose|j: int|
                    0 <= j < taken.len() && (#[trigger] taken[j]).0 == symbol
                        && collecting::only_read(
                        claims,
                        typing::place_ty(taken[j].1),
                        symbol,
                    );
                assert(taken[j] == (var, Place::Key(ty)));
                lemma_read(occurs, var, symbol);
            }
        },
        (PredicateTy::Record(_), _) => {
            assert(taken.len() == 0);
        },
        _ => {},
    }
}

/// An expression whose root stands for something is known.
proof fn lemma_known_root(w: World, sense: Sense, node: NodeId)
    requires
        ({
            let root = model::chain_root(w.cx, node);
            match w.cx.ast.kind(root) {
                ExprKind::Var(symbol) => sense(symbol) is Some,
                ExprKind::Fact(_, _) => model::hoisted_row(w.hoisted, root) matches Some(row)
                    ==> sense(row) is Some,
                _ => true,
            }
        }),
    ensures
        likeness::known(w, sense, node),
    decreases node.0,
{
    if let ExprKind::Access(_, base) = w.cx.ast.kind(node) {
        if base.0 < node.0 {
            lemma_known_root(w, sense, base);
        }
    }
}

/// Every read stands for something.
pub open spec fn reads_stand(occurs: Occurs, sense: Sense) -> bool {
    forall|symbol: Symbol| #[trigger]
        occurs.reads.contains(symbol) ==> sense(symbol) is Some
}

proof fn lemma_read_known(w: World, sense: Sense, st: St, node: NodeId, occurs: Occurs)
    requires
        st.hoisted == w.hoisted,
        reads_stand(collecting::scan_read(w.cx, st, node, occurs), sense),
    ensures
        likeness::known(w, sense, node),
{
    let root = model::chain_root(w.cx, node);
    match w.cx.ast.kind(root) {
        ExprKind::Var(var) => {
            lemma_read(occurs, var, var);
            assert(collecting::scan_read(w.cx, st, node, occurs).reads.contains(var));
        },
        ExprKind::Fact(_, _) => if let Some(row) = model::hoisted_row(st.hoisted, root) {
            lemma_read(occurs, row, row);
            assert(collecting::scan_read(w.cx, st, node, occurs).reads.contains(row));
        },
        _ => {},
    }
    lemma_known_root(w, sense, node);
}

/// A pattern whose reads all stand for something is covered, where nothing is reported.
proof fn lemma_field_covered(
    w: World,
    sense: Sense,
    st: St,
    node: NodeId,
    ty: PredicateTy,
    claims: Claimed,
    occurs: Occurs,
)
    requires
        st.hoisted == w.hoisted,
        ({
            let (after, seen) = collecting::scan_field(w.cx, st, node, ty, claims, occurs);
            after.reports.len() == st.reports.len() && reads_stand(seen, sense)
        }),
    ensures
        likeness::covered(w, sense, node, ty),
    decreases node.0, 1nat, 0nat,
{
    match w.cx.ast.kind(node) {
        ExprKind::Record(fields) => if let PredicateTy::Record(tys) = ty {
            lemma_fields_covered(
                w,
                sense,
                st,
                node,
                fields@,
                tys@,
                tys@.len(),
                claims,
                occurs,
            );
        },
        ExprKind::Access(FieldRef::Key(_), _) => lemma_read_known(w, sense, st, node, occurs),
        ExprKind::Fact(_, _) => if let Some(row) = model::hoisted_row(st.hoisted, node) {
            lemma_read(occurs, row, row);
            assert(collecting::read_hoisted(st, node, occurs).reads.contains(row));
        },
        _ => {},
    }
}

proof fn lemma_fields_covered(
    w: World,
    sense: Sense,
    st: St,
    node: NodeId,
    fields: Seq<(Symbol, NodeId)>,
    tys: Seq<(NameKey, PredicateTy)>,
    k: nat,
    claims: Claimed,
    occurs: Occurs,
)
    requires
        st.hoisted == w.hoisted,
        ({
            let (after, seen) = collecting::scan_fields(
                w.cx,
                st,
                node,
                fields,
                tys,
                k,
                claims,
                occurs,
            );
            after.reports.len() == st.reports.len() && reads_stand(seen, sense)
        }),
    ensures
        forall|i: int|
            0 <= i < k ==> (model::field_pattern(
                fields,
                Symbol::Schema((#[trigger] tys[i]).0),
            ) matches Some(inner) ==> inner.0 < node.0 ==> likeness::covered(
                w,
                sense,
                inner,
                tys[i].1,
            )),
    decreases node.0, 0nat, k,
{
    if k > 0 {
        let j = (k - 1) as nat;
        let none = Route::of(0, Seq::empty());
        let (s1, o1) = collecting::scan_fields(w.cx, st, node, fields, tys, j, claims, occurs);
        let seen = collecting::scan_fields(w.cx, st, node, fields, tys, k, claims, occurs).1;
        let any: Symbol = arbitrary();
        lemma_fields_read(w, st, node, fields, tys, j, none, claims, occurs, any);
        if let Some(piece) = model::field_pattern(fields, Symbol::Schema(tys[k - 1].0)) {
            if piece.0 < node.0 {
                lemma_field_reads(w, s1, piece, tys[k - 1].1, none, claims, o1, any);
            }
        }
        assert forall|symbol: Symbol| #[trigger] o1.reads.contains(symbol) implies sense(
            symbol,
        ) is Some by {
            if let Some(piece) = model::field_pattern(fields, Symbol::Schema(tys[k - 1].0)) {
                if piece.0 < node.0 {
                    lemma_field_reads(w, s1, piece, tys[k - 1].1, none, claims, o1, symbol);
                }
            }
            assert(seen.reads.contains(symbol));
        }
        lemma_fields_covered(w, sense, st, node, fields, tys, j, claims, occurs);
        if let Some(piece) = model::field_pattern(fields, Symbol::Schema(tys[k - 1].0)) {
            if piece.0 < node.0 {
                lemma_field_covered(w, sense, s1, piece, tys[k - 1].1, claims, o1);
            }
        }
    }
}

/// A head whose reads all stand for something is known, where nothing is reported.
proof fn lemma_head_said(w: World, sense: Sense, st: St, node: NodeId, occurs: Occurs)
    requires
        st.hoisted == w.hoisted,
        ({
            let (after, seen) = collecting::scan_head(w.cx, st, node, occurs);
            after.reports.len() == st.reports.len() && reads_stand(seen, sense)
        }),
    ensures
        joining::said(w, sense, node),
    decreases node.0, 1nat, 0nat,
{
    match w.cx.ast.kind(node) {
        ExprKind::Record(fields) => lemma_head_fields_said(
            w,
            sense,
            st,
            node,
            fields@,
            fields@.len(),
            occurs,
        ),
        ExprKind::Var(symbol) => {
            lemma_read(occurs, symbol, symbol);
            assert(occurs.read(symbol).reads.contains(symbol));
        },
        ExprKind::Fact(_, _) => if let Some(row) = model::hoisted_row(st.hoisted, node) {
            lemma_read(occurs, row, row);
            assert(collecting::read_hoisted(st, node, occurs).reads.contains(row));
        },
        ExprKind::Access(_, _) => lemma_read_known(w, sense, st, node, occurs),
        _ => {},
    }
}

proof fn lemma_head_fields_said(
    w: World,
    sense: Sense,
    st: St,
    node: NodeId,
    fields: Seq<(Symbol, NodeId)>,
    k: nat,
    occurs: Occurs,
)
    requires
        st.hoisted == w.hoisted,
        k <= fields.len(),
        ({
            let (after, seen) = collecting::scan_head_fields(w.cx, st, node, fields, k, occurs);
            after.reports.len() == st.reports.len() && reads_stand(seen, sense)
        }),
    ensures
        forall|i: int|
            0 <= i < k && (#[trigger] fields[i]).1.0 < node.0 ==> joining::said(
                w,
                sense,
                fields[i].1,
            ),
    decreases node.0, 0nat, k,
{
    if k > 0 {
        let j = (k - 1) as nat;
        let (s1, o1) = collecting::scan_head_fields(w.cx, st, node, fields, j, occurs);
        let seen = collecting::scan_head_fields(w.cx, st, node, fields, k, occurs).1;
        heads::lemma_scan_fields_grow(w.cx, st, node, fields, j, occurs);
        if fields[k - 1].1.0 < node.0 {
            heads::lemma_scan_grows(w.cx, s1, fields[k - 1].1, o1);
        }
        assert forall|symbol: Symbol| #[trigger] o1.reads.contains(symbol) implies sense(
            symbol,
        ) is Some by {
            assert(seen.reads.contains(symbol));
        }
        lemma_head_fields_said(w, sense, st, node, fields, j, occurs);
        if fields[k - 1].1.0 < node.0 {
            lemma_head_said(w, sense, s1, fields[k - 1].1, o1);
        }
    }
}

// ---- claims -----------------------------------------------------------------

/// The variables one statement alone says what they are.
pub open spec fn claims_of(cx: Cx, capturable: Seq<Symbol>, stmt: Stmt) -> Seq<Symbol> {
    match stmt {
        Stmt::Scan(scan) => match scan.row {
            Some(row) => seq![row],
            None => Seq::empty(),
        },
        Stmt::Alias(alias) => if collecting::is_compare(cx, alias, capturable) {
            Seq::empty()
        } else {
            model::bare_variables(cx, alias.pattern)
        },
        _ => Seq::empty(),
    }
}

/// Those of the first `k` statements.
pub open spec fn all_claims(cx: Cx, stmts: Seq<Stmt>, k: nat) -> Seq<Symbol>
    decreases k,
{
    if k == 0 {
        Seq::empty()
    } else {
        all_claims(cx, stmts, (k - 1) as nat) + claims_of(
            cx,
            collecting::capturable(cx, stmts, stmts.len()),
            stmts[k - 1],
        )
    }
}

/// Claims hold what was claimed.
pub open spec fn holds(claims: Claimed, names: Seq<Symbol>) -> bool {
    forall|symbol: Symbol| #[trigger]
        names.contains(symbol) ==> claims.rows.contains(symbol) || claims.aliased.contains(symbol)
}

/// More is claimed.
pub open spec fn more_claimed(a: Claimed, b: Claimed) -> bool {
    &&& forall|symbol: Symbol| #[trigger]
        a.rows.contains(symbol) ==> b.rows.contains(symbol)
    &&& forall|symbol: Symbol| #[trigger]
        a.aliased.contains(symbol) ==> b.aliased.contains(symbol)
}

proof fn lemma_pushed(a: Seq<Symbol>, x: Symbol, symbol: Symbol)
    ensures
        a.push(x).contains(symbol) == (a.contains(symbol) || symbol == x),
{
    let b = a.push(x);
    assert(b[a.len() as int] == x);
    if a.contains(symbol) {
        let i = choose|i: int| 0 <= i < a.len() && a[i] == symbol;
        assert(b[i] == symbol);
    }
    if b.contains(symbol) {
        let i = choose|i: int| 0 <= i < b.len() && b[i] == symbol;
        if i < a.len() {
            assert(a[i] == symbol);
        }
    }
}

proof fn lemma_claim_names(
    st: St,
    claims: Claimed,
    names: Seq<Symbol>,
    k: nat,
    span: NodeSpan,
    is_row: bool,
)
    requires
        k <= names.len(),
    ensures
        ({
            let (after, found) = collecting::claim_names(st, claims, names, k, span, is_row);
            &&& st.reports.len() <= after.reports.len()
            &&& more_claimed(claims, found)
            &&& after.reports.len() == st.reports.len() ==> {
                &&& names.take(k as int).no_duplicates()
                &&& forall|i: int|
                    0 <= i < k ==> !claims.rows.contains(#[trigger] names[i])
                        && !claims.aliased.contains(names[i]) && (if is_row {
                        found.rows.contains(names[i])
                    } else {
                        found.aliased.contains(names[i])
                    })
            }
        }),
    decreases k,
{
    if k > 0 {
        let j = (k - 1) as nat;
        lemma_claim_names(st, claims, names, j, span, is_row);
        let (s1, c1) = collecting::claim_names(st, claims, names, j, span, is_row);
        let (after, found) = collecting::claim_names(st, claims, names, k, span, is_row);
        let name = names[k - 1];
        assert forall|symbol: Symbol| (#[trigger] c1.rows.contains(symbol)) implies found.rows.contains(
            symbol,
        ) by {
            lemma_pushed(c1.rows, name, symbol);
        }
        assert forall|symbol: Symbol| (
        #[trigger] c1.aliased.contains(symbol)) implies found.aliased.contains(symbol) by {
            lemma_pushed(c1.aliased, name, symbol);
        }
        lemma_pushed(c1.rows, name, name);
        lemma_pushed(c1.aliased, name, name);
        if after.reports.len() == st.reports.len() {
            let (short, long) = (names.take(j as int), names.take(k as int));
            assert forall|p: int, q: int|
                0 <= p < long.len() && 0 <= q < long.len() && p != q implies long[p] != long[q] by {
                if p < j && q < j {
                    assert(short[p] == long[p] && short[q] == long[q]);
                } else if p < j {
                    assert(long[p] == names[p]);
                } else {
                    assert(long[q] == names[q]);
                }
            }
        }
    }
}

proof fn lemma_in_sum(a: Seq<Symbol>, b: Seq<Symbol>, symbol: Symbol)
    ensures
        (a + b).contains(symbol) == (a.contains(symbol) || b.contains(symbol)),
{
    let all = a + b;
    if a.contains(symbol) {
        let i = choose|i: int| 0 <= i < a.len() && a[i] == symbol;
        assert(all[i] == symbol);
    }
    if b.contains(symbol) {
        let i = choose|i: int| 0 <= i < b.len() && b[i] == symbol;
        assert(all[a.len() + i] == symbol);
    }
    if all.contains(symbol) {
        heads::lemma_in_either(a, b, symbol);
    }
}

/// Where nothing is reported, no variable is claimed twice.
#[verifier::rlimit(30)]
proof fn lemma_claims(cx: Cx, st: St, stmts: Seq<Stmt>, k: nat)
    requires
        k <= stmts.len(),
    ensures
        ({
            let (after, found) = collecting::claimed(cx, st, stmts, k);
            let capturable = collecting::capturable(cx, stmts, stmts.len());
            &&& st.reports.len() <= after.reports.len()
            &&& found.capturable == capturable
            &&& after.reports.len() == st.reports.len() ==> {
                &&& all_claims(cx, stmts, k).no_duplicates()
                &&& holds(found, all_claims(cx, stmts, k))
                &&& forall|i: int, symbol: Symbol|
                    #![trigger claims_of(cx, capturable, stmts[i]).contains(symbol)]
                    0 <= i < k && claims_of(cx, capturable, stmts[i]).contains(symbol) ==> (
                    if stmts[i] is Scan {
                        found.rows.contains(symbol)
                    } else {
                        found.aliased.contains(symbol)
                    })
            }
        }),
    decreases k,
{
    if k > 0 {
        let j = (k - 1) as nat;
        let capturable = collecting::capturable(cx, stmts, stmts.len());
        lemma_claims(cx, st, stmts, j);
        let (s1, c1) = collecting::claimed(cx, st, stmts, j);
        let (after, found) = collecting::claimed(cx, st, stmts, k);
        let own = claims_of(cx, capturable, stmts[k - 1]);
        let before = all_claims(cx, stmts, j);
        let all = all_claims(cx, stmts, k);
        let is_row = stmts[k - 1] is Scan;
        match stmts[k - 1] {
            Stmt::Scan(scan) => if scan.row is Some {
                lemma_claim_names(s1, c1, own, own.len(), scan.span, true);
                gathering::lemma_claim_names(s1, c1, own, own.len(), scan.span, true);
            },
            Stmt::Alias(alias) => {
                lemma_claim_names(s1, c1, own, own.len(), alias.span, false);
                gathering::lemma_claim_names(s1, c1, own, own.len(), alias.span, false);
            },
            _ => {},
        }
        assert(own.take(own.len() as int) =~= own);
        assert(more_claimed(c1, found));
        if after.reports.len() == st.reports.len() {
            assert(own.no_duplicates());
            assert forall|i: int| 0 <= i < own.len() implies !before.contains(
                #[trigger] own[i],
            ) by {}
            assert forall|p: int, q: int|
                0 <= p < all.len() && 0 <= q < all.len() && p != q implies all[p] != all[q] by {
                let n = before.len();
                if p < n && q < n {
                    assert(before[p] == all[p] && before[q] == all[q]);
                } else if p < n {
                    assert(before[p] == all[p] && own[q - n] == all[q]);
                    assert(before.contains(before[p]));
                } else if q < n {
                    assert(before[q] == all[q] && own[p - n] == all[p]);
                    assert(before.contains(before[q]));
                } else {
                    assert(own[p - n] == all[p] && own[q - n] == all[q]);
                }
            }
            assert forall|symbol: Symbol| own.contains(symbol) implies (if is_row {
                found.rows.contains(symbol)
            } else {
                found.aliased.contains(symbol)
            }) by {
                let i = choose|i: int| 0 <= i < own.len() && own[i] == symbol;
                assert(!c1.rows.contains(own[i]));
            }
            assert forall|symbol: Symbol| #[trigger] all.contains(symbol) implies
                found.rows.contains(symbol) || found.aliased.contains(symbol) by {
                lemma_in_sum(before, own, symbol);
                if before.contains(symbol) {
                    assert(c1.rows.contains(symbol) || c1.aliased.contains(symbol));
                }
            }
            assert forall|i: int, symbol: Symbol|
                #![trigger claims_of(cx, capturable, stmts[i]).contains(symbol)]
                0 <= i < k && claims_of(cx, capturable, stmts[i]).contains(symbol) implies (
            if stmts[i] is Scan {
                found.rows.contains(symbol)
            } else {
                found.aliased.contains(symbol)
            }) by {
                if i < j {
                    assert(c1.rows.contains(symbol) || c1.aliased.contains(symbol));
                }
            }
        }
    }
}

/// A claim of one statement is among all claims, at a place of its own.
proof fn lemma_claim_at(cx: Cx, stmts: Seq<Stmt>, k: nat, i: int, x: int) -> (at: int)
    requires
        0 <= i < k <= stmts.len(),
        0 <= x < claims_of(
            cx,
            collecting::capturable(cx, stmts, stmts.len()),
            stmts[i],
        ).len(),
    ensures
        0 <= at < all_claims(cx, stmts, k).len(),
        all_claims(cx, stmts, k)[at] == claims_of(
            cx,
            collecting::capturable(cx, stmts, stmts.len()),
            stmts[i],
        )[x],
        all_claims(cx, stmts, i as nat).len() <= at < all_claims(cx, stmts, (i + 1) as nat).len(),
        all_claims(cx, stmts, (i + 1) as nat).len() <= all_claims(cx, stmts, k).len(),
    decreases k,
{
    let before = all_claims(cx, stmts, (k - 1) as nat);
    if i == k - 1 {
        before.len() + x
    } else {
        lemma_claim_at(cx, stmts, (k - 1) as nat, i, x)
    }
}

proof fn lemma_claims_len(cx: Cx, stmts: Seq<Stmt>, i: nat, j: nat)
    requires
        i <= j,
    ensures
        all_claims(cx, stmts, i).len() <= all_claims(cx, stmts, j).len(),
    decreases j,
{
    if i < j {
        lemma_claims_len(cx, stmts, i, (j - 1) as nat);
    }
}

/// No two statements claim one variable.
proof fn lemma_claimed_once(cx: Cx, stmts: Seq<Stmt>, i: int, j: int, symbol: Symbol)
    requires
        0 <= i < stmts.len(),
        0 <= j < stmts.len(),
        i != j,
        all_claims(cx, stmts, stmts.len()).no_duplicates(),
        claims_of(
            cx,
            collecting::capturable(cx, stmts, stmts.len()),
            stmts[i],
        ).contains(symbol),
    ensures
        !claims_of(
            cx,
            collecting::capturable(cx, stmts, stmts.len()),
            stmts[j],
        ).contains(symbol),
{
    let capturable = collecting::capturable(cx, stmts, stmts.len());
    let (a, b) = (claims_of(cx, capturable, stmts[i]), claims_of(cx, capturable, stmts[j]));
    let x = choose|x: int| 0 <= x < a.len() && a[x] == symbol;
    if b.contains(symbol) {
        let y = choose|y: int| 0 <= y < b.len() && b[y] == symbol;
        let p = lemma_claim_at(cx, stmts, stmts.len(), i, x);
        let q = lemma_claim_at(cx, stmts, stmts.len(), j, y);
        if i < j {
            lemma_claims_len(cx, stmts, (i + 1) as nat, j as nat);
        } else {
            lemma_claims_len(cx, stmts, (j + 1) as nat, i as nat);
        }
        assert(p != q);
    }
}

proof fn lemma_own_once(cx: Cx, stmts: Seq<Stmt>, i: int)
    requires
        0 <= i < stmts.len(),
        all_claims(cx, stmts, stmts.len()).no_duplicates(),
    ensures
        claims_of(
            cx,
            collecting::capturable(cx, stmts, stmts.len()),
            stmts[i],
        ).no_duplicates(),
{
    let own = claims_of(cx, collecting::capturable(cx, stmts, stmts.len()), stmts[i]);
    lemma_own_place(cx, stmts, stmts.len(), i);
    let all = all_claims(cx, stmts, stmts.len());
    let n = all_claims(cx, stmts, i as nat).len();
    assert forall|p: int, q: int|
        0 <= p < own.len() && 0 <= q < own.len() && p != q implies own[p] != own[q] by {
        assert(all[n + p] == own[p] && all[n + q] == own[q]);
    }
}

proof fn lemma_own_place(cx: Cx, stmts: Seq<Stmt>, k: nat, i: int)
    requires
        0 <= i < k <= stmts.len(),
    ensures
        ({
            let own = claims_of(cx, collecting::capturable(cx, stmts, stmts.len()), stmts[i]);
            let n = all_claims(cx, stmts, i as nat).len();
            &&& n + own.len() <= all_claims(cx, stmts, k).len()
            &&& forall|x: int|
                0 <= x < own.len() ==> all_claims(cx, stmts, k)[n + x] == #[trigger] own[x]
        }),
    decreases k,
{
    if i < k - 1 {
        lemma_own_place(cx, stmts, (k - 1) as nat, i);
        let own = claims_of(cx, collecting::capturable(cx, stmts, stmts.len()), stmts[i]);
        let n = all_claims(cx, stmts, i as nat).len();
        let before = all_claims(cx, stmts, (k - 1) as nat);
        assert forall|x: int| 0 <= x < own.len() implies all_claims(cx, stmts, k)[n + x]
            == #[trigger] own[x] by {
            assert(before[n + x] == own[x]);
        }
    }
}

// ---- what is bound, by either account ---------------------------------------

proof fn lemma_lookup_sum(
    bindings: Seq<(Symbol, Slot)>,
    more: Seq<(Symbol, Slot)>,
    symbol: Symbol,
)
    ensures
        model::lookup(bindings + more, symbol) is Some == (model::lookup(bindings, symbol) is Some
            || exists|j: int| 0 <= j < more.len() && (#[trigger] more[j]).0 == symbol),
    decreases more.len(),
{
    let all = bindings + more;
    heads::lemma_more_bound(bindings, more, symbol);
    if more.len() == 0 {
        assert(all =~= bindings);
    } else {
        let shorter = more.drop_last();
        assert(all.drop_last() =~= bindings + shorter);
        assert(all.last() == more.last());
        assert(more[more.len() - 1] == more.last());
        lemma_lookup_sum(bindings, shorter, symbol);
        if exists|j: int| 0 <= j < shorter.len() && (#[trigger] shorter[j]).0 == symbol {
            let j = choose|j: int| 0 <= j < shorter.len() && (#[trigger] shorter[j]).0 == symbol;
            assert(more[j].0 == symbol);
        }
    }
}

/// Naming a pattern binds nothing else, and compares are only added.
proof fn lemma_bind_only(cx: Cx, st: St, pattern: NodeId, slot: Slot)
    ensures
        ({
            let after = model::bind_pattern(cx, st, pattern, slot);
            &&& st.compares.is_prefix_of(after.compares)
            &&& forall|symbol: Symbol|
                #![trigger model::lookup(after.bindings, symbol)]
                model::lookup(after.bindings, symbol) is Some ==> model::lookup(
                    st.bindings,
                    symbol,
                ) is Some || model::bare_variables(cx, pattern).contains(symbol)
            &&& forall|symbol: Symbol|
                #![trigger model::lookup(after.bindings, symbol)]
                model::lookup(st.bindings, symbol) is Some ==> model::lookup(
                    after.bindings,
                    symbol,
                ) == model::lookup(st.bindings, symbol)
        }),
    decreases pattern.0, 1nat, 0nat,
{
    let after = model::bind_pattern(cx, st, pattern, slot);
    match cx.ast.kind(pattern) {
        ExprKind::Var(var) => {
            assert(model::bare_variables(cx, pattern)[0] == var);
            if model::lookup(st.bindings, var) is None {
                assert(after.bindings.drop_last() =~= st.bindings);
            }
            assert(st.compares.is_prefix_of(after.compares)) by {
                assert(after.compares.subrange(0, st.compares.len() as int) =~= st.compares);
            }
        },
        ExprKind::Record(fields) => lemma_bind_only_pieces(
            cx,
            st,
            pattern,
            slot,
            fields@,
            fields@.len(),
        ),
        _ => {
            assert(st.compares.subrange(0, st.compares.len() as int) =~= st.compares);
        },
    }
}

#[verifier::rlimit(30)]
proof fn lemma_bind_only_pieces(
    cx: Cx,
    st: St,
    pattern: NodeId,
    slot: Slot,
    fields: Seq<(Symbol, NodeId)>,
    k: nat,
)
    ensures
        ({
            let after = model::bind_pieces(cx, st, pattern, slot, fields, k);
            &&& st.compares.is_prefix_of(after.compares)
            &&& forall|symbol: Symbol|
                #![trigger model::lookup(after.bindings, symbol)]
                model::lookup(after.bindings, symbol) is Some ==> model::lookup(
                    st.bindings,
                    symbol,
                ) is Some || model::bare_variables_of(cx, pattern, fields, k).contains(symbol)
            &&& forall|symbol: Symbol|
                #![trigger model::lookup(after.bindings, symbol)]
                model::lookup(st.bindings, symbol) is Some ==> model::lookup(
                    after.bindings,
                    symbol,
                ) == model::lookup(st.bindings, symbol)
        }),
    decreases pattern.0, 0nat, k,
{
    if k == 0 {
        assert(st.compares.subrange(0, st.compares.len() as int) =~= st.compares);
    } else {
        let j = (k - 1) as nat;
        lemma_bind_only_pieces(cx, st, pattern, slot, fields, j);
        let s1 = model::bind_pieces(cx, st, pattern, slot, fields, j);
        let (name, piece) = fields[k - 1];
        let (s2, field) = model::field_slot(cx, s1, piece, slot, name);
        matching::lemma_field_slot_only(cx, s1, piece, slot, name);
        let after = model::bind_pieces(cx, st, pattern, slot, fields, k);
        let before = model::bare_variables_of(cx, pattern, fields, j);
        let own = if piece.0 < pattern.0 {
            model::bare_variables(cx, piece)
        } else {
            Seq::empty()
        };
        if let Some(place) = field {
            if piece.0 < pattern.0 {
                lemma_bind_only(cx, s2, piece, place);
            }
        }
        assert(s1.compares.is_prefix_of(after.compares)) by {
            assert(s1.compares.subrange(0, s1.compares.len() as int) =~= s1.compares);
        }
        assert(after.compares.subrange(0, st.compares.len() as int) =~= s1.compares.subrange(
            0,
            st.compares.len() as int,
        ));
        assert forall|symbol: Symbol|
            #![trigger model::lookup(after.bindings, symbol)]
            model::lookup(after.bindings, symbol) is Some implies model::lookup(
            st.bindings,
            symbol,
        ) is Some || model::bare_variables_of(cx, pattern, fields, k).contains(symbol) by {
            lemma_in_sum(before, own, symbol);
            assert(model::lookup(s1.bindings, symbol) is Some || own.contains(symbol));
        }
        assert forall|symbol: Symbol|
            #![trigger model::lookup(after.bindings, symbol)]
            model::lookup(st.bindings, symbol) is Some implies model::lookup(
            after.bindings,
            symbol,
        ) == model::lookup(st.bindings, symbol) by {
            assert(model::lookup(s1.bindings, symbol) == model::lookup(st.bindings, symbol));
        }
    }
}

/// Naming something by a constant's name compares the constant.
proof fn lemma_bind_constant(cx: Cx, st: St, pattern: NodeId, slot: Slot, symbol: Symbol)
    requires
        model::bare_variables(cx, pattern).contains(symbol),
        model::lookup(st.bindings, symbol) matches Some(Slot::Const(_)),
        scope::clean(st, model::bind_pattern(cx, st, pattern, slot)),
    ensures
        exists|i: int|
            0 <= i < model::bind_pattern(cx, st, pattern, slot).compares.len()
                && (#[trigger] model::bind_pattern(cx, st, pattern, slot).compares[i]).left is Const,
    decreases pattern.0, 1nat, 0nat,
{
    let after = model::bind_pattern(cx, st, pattern, slot);
    match cx.ast.kind(pattern) {
        ExprKind::Var(var) => {
            assert(var == symbol);
            assert(after.compares[st.compares.len() as int].left is Const);
        },
        ExprKind::Record(fields) => lemma_bind_constant_pieces(
            cx,
            st,
            pattern,
            slot,
            fields@,
            fields@.len(),
            symbol,
        ),
        _ => {},
    }
}

proof fn lemma_bind_constant_pieces(
    cx: Cx,
    st: St,
    pattern: NodeId,
    slot: Slot,
    fields: Seq<(Symbol, NodeId)>,
    k: nat,
    symbol: Symbol,
)
    requires
        model::bare_variables_of(cx, pattern, fields, k).contains(symbol),
        model::lookup(st.bindings, symbol) matches Some(Slot::Const(_)),
        scope::clean(st, model::bind_pieces(cx, st, pattern, slot, fields, k)),
    ensures
        exists|i: int|
            0 <= i < model::bind_pieces(cx, st, pattern, slot, fields, k).compares.len()
                && (#[trigger] model::bind_pieces(
                cx,
                st,
                pattern,
                slot,
                fields,
                k,
            ).compares[i]).left is Const,
    decreases pattern.0, 0nat, k,
{
    if k > 0 {
        let j = (k - 1) as nat;
        let s1 = model::bind_pieces(cx, st, pattern, slot, fields, j);
        let (name, piece) = fields[k - 1];
        let (s2, field) = model::field_slot(cx, s1, piece, slot, name);
        let after = model::bind_pieces(cx, st, pattern, slot, fields, k);
        running::lemma_bind_pieces_only(cx, st, pattern, slot, fields, j);
        matching::lemma_field_slot_only(cx, s1, piece, slot, name);
        lemma_bind_only_pieces(cx, st, pattern, slot, fields, j);
        let before = model::bare_variables_of(cx, pattern, fields, j);
        let own = if piece.0 < pattern.0 {
            model::bare_variables(cx, piece)
        } else {
            Seq::empty()
        };
        if let Some(place) = field {
            if piece.0 < pattern.0 {
                running::lemma_bind_only(cx, s2, piece, place);
                lemma_bind_only(cx, s2, piece, place);
            }
        }
        lemma_in_sum(before, own, symbol);
        assert(model::lookup(s1.bindings, symbol) == model::lookup(st.bindings, symbol));
        if before.contains(symbol) {
            lemma_bind_constant_pieces(cx, st, pattern, slot, fields, j, symbol);
            let i = choose|i: int|
                0 <= i < s1.compares.len() && (#[trigger] s1.compares[i]).left is Const;
            assert(after.compares[i] == s1.compares[i]) by {
                assert(s1.compares.is_prefix_of(after.compares)) by {
                    assert(s1.compares.subrange(0, s1.compares.len() as int) =~= s1.compares);
                }
                assert(after.compares.subrange(0, s1.compares.len() as int)[i]
                    == after.compares[i]);
            }
        } else {
            lemma_bind_constant(cx, s2, piece, field->0, symbol);
        }
    }
}

/// Where nothing is reported, only fields are compared.
proof fn lemma_only_fields(cx: Cx, st: St, built: Built, compares: Seq<Compare>, k: nat, i: int)
    requires
        0 <= i < k <= compares.len(),
        scope::clean(st, emitting::compared_all(cx, st, built, compares, k).0),
    ensures
        compares[i].left is Field,
        compares[i].right is Field,
    decreases k,
{
    finishing::lemma_compared_grow(cx, st, built, compares, (k - 1) as nat);
    if i < k - 1 {
        lemma_only_fields(cx, st, built, compares, (k - 1) as nat, i);
    }
}

// ---- an order that flattens -------------------------------------------------

/// The reports of a walk over the statements are only added to.
proof fn lemma_deps_grow(cx: Cx, st: St, claims: Claimed, stmts: Seq<Stmt>, i: nat, k: nat)
    requires
        scope::within(st, 0),
        i <= k,
    ensures
        collecting::deps_of(cx, st, claims, stmts, i).0.reports.len() <= collecting::deps_of(
            cx,
            st,
            claims,
            stmts,
            k,
        ).0.reports.len(),
    decreases k,
{
    if i < k {
        let j = (k - 1) as nat;
        lemma_deps_grow(cx, st, claims, stmts, i, j);
        let s1 = collecting::deps_of(cx, st, claims, stmts, j).0;
        scope::lemma_deps_gather(cx, st, claims, stmts, j);
        match stmts[k - 1] {
            Stmt::Scan(scan) => {
                let alts = scan.alternatives@;
                scope::lemma_scan_branches_gather(cx, s1, claims, alts, alts.len());
            },
            Stmt::Negate(tested) => {
                let alts = tested.alternatives@;
                scope::lemma_scan_alts_gather(
                    cx,
                    s1,
                    claims,
                    alts,
                    alts.len(),
                    Occurs::none(),
                );
            },
            _ => {},
        }
    }
}

/// Some alternatives are in the tree, of declared predicates.
pub open spec fn alts_known(w: World, alts: Seq<Alt>) -> bool {
    forall|i: int|
        0 <= i < alts.len() ==> w.cx.ast.has((#[trigger] alts[i]).key) && w.cx.schema.predicate(
            alts[i].predicate,
        ) is Some
}

/// Where a scan's reads all stand for something, every alternative is covered; and it reads
/// what something else says what it is.
proof fn lemma_branches(
    w: World,
    sense: Sense,
    st: St,
    claims: Claimed,
    alts: Seq<Alt>,
    k: nat,
    symbol: Symbol,
)
    requires
        w.cx.ast.wf(),
        st.hoisted == w.hoisted,
        k <= alts.len(),
        alts_known(w, alts),
    ensures
        ({
            let (after, reads, captures) = collecting::scan_branches(w.cx, st, claims, alts, k);
            &&& st.reports.len() <= after.reports.len()
            &&& after.hoisted == st.hoisted
            &&& forall|i: int|
                0 <= i < k && claimed_at(
                    claims,
                    typing::occurring(w, #[trigger] alts[i]),
                    symbol,
                ) ==> reads.contains(symbol)
            &&& after.reports.len() == st.reports.len() && (forall|x: Symbol| #[trigger]
                reads.contains(x) ==> sense(x) is Some) ==> forall|i: int|
                0 <= i < k ==> likeness::covered(
                    w,
                    sense,
                    (#[trigger] alts[i]).key,
                    reading::key_of(w, alts[i]),
                )
        }),
    decreases k,
{
    if k > 0 {
        let j = (k - 1) as nat;
        lemma_branches(w, sense, st, claims, alts, j, symbol);
        let (s1, before, captures) = collecting::scan_branches(w.cx, st, claims, alts, j);
        let (after, reads, _) = collecting::scan_branches(w.cx, st, claims, alts, k);
        let alt = alts[k - 1];
        assert(w.cx.ast.has(alt.key) && w.cx.schema.predicate(alt.predicate) is Some);
        let own = collecting::scan_key(w.cx, s1, alt, claims, Occurs::none()).1;
        lemma_key_reads(w, s1, alt, claims, Occurs::none(), symbol);
        lemma_in_sum(before, own.reads, symbol);
        if after.reports.len() == st.reports.len() && (forall|x: Symbol| #[trigger]
            reads.contains(x) ==> sense(x) is Some) {
            assert forall|x: Symbol| #[trigger] before.contains(x) implies sense(x) is Some by {
                lemma_in_sum(before, own.reads, x);
                assert(reads.contains(x));
            }
            assert forall|x: Symbol| #[trigger] own.reads.contains(x) implies sense(x) is Some by {
                lemma_in_sum(before, own.reads, x);
                assert(reads.contains(x));
            }
            lemma_field_covered(
                w,
                sense,
                s1,
                alt.key,
                reading::key_of(w, alt),
                claims,
                Occurs::none(),
            );
        }
    }
}

/// The same of a negation.
proof fn lemma_alts(
    w: World,
    sense: Sense,
    st: St,
    claims: Claimed,
    alts: Seq<Alt>,
    k: nat,
    occurs: Occurs,
)
    requires
        w.cx.ast.wf(),
        st.hoisted == w.hoisted,
        k <= alts.len(),
        alts_known(w, alts),
        ({
            let (after, seen) = collecting::scan_alts(w.cx, st, claims, alts, k, occurs);
            after.reports.len() == st.reports.len() && reads_stand(seen, sense)
        }),
    ensures
        collecting::scan_alts(w.cx, st, claims, alts, k, occurs).0.hoisted == st.hoisted,
        forall|i: int|
            0 <= i < k ==> likeness::covered(
                w,
                sense,
                (#[trigger] alts[i]).key,
                reading::key_of(w, alts[i]),
            ),
    decreases k,
{
    if k > 0 {
        let j = (k - 1) as nat;
        let (s1, o1) = collecting::scan_alts(w.cx, st, claims, alts, j, occurs);
        let seen = collecting::scan_alts(w.cx, st, claims, alts, k, occurs).1;
        let alt = alts[k - 1];
        assert(w.cx.ast.has(alt.key) && w.cx.schema.predicate(alt.predicate) is Some);
        let any: Symbol = arbitrary();
        lemma_alts_grow(w, st, claims, alts, j, occurs);
        lemma_key_reads(w, s1, alt, claims, o1, any);
        assert forall|x: Symbol| #[trigger] o1.reads.contains(x) implies sense(x) is Some by {
            lemma_key_reads(w, s1, alt, claims, o1, x);
            assert(seen.reads.contains(x));
        }
        lemma_alts(w, sense, st, claims, alts, j, occurs);
        lemma_field_covered(w, sense, s1, alt.key, reading::key_of(w, alt), claims, o1);
    }
}

proof fn lemma_alts_grow(
    w: World,
    st: St,
    claims: Claimed,
    alts: Seq<Alt>,
    k: nat,
    occurs: Occurs,
)
    requires
        w.cx.ast.wf(),
        k <= alts.len(),
        alts_known(w, alts),
    ensures
        st.reports.len() <= collecting::scan_alts(
            w.cx,
            st,
            claims,
            alts,
            k,
            occurs,
        ).0.reports.len(),
    decreases k,
{
    if k > 0 {
        let j = (k - 1) as nat;
        lemma_alts_grow(w, st, claims, alts, j, occurs);
        let (s1, o1) = collecting::scan_alts(w.cx, st, claims, alts, j, occurs);
        assert(w.cx.ast.has(alts[k - 1].key));
        lemma_key_reads(w, s1, alts[k - 1], claims, o1, arbitrary());
    }
}

/// Every scan ranges over something.
pub open spec fn all_range(job: Job) -> bool {
    forall|k: int|
        0 <= k < job.order.len() ==> (job.stmts[#[trigger] job.order[k] as int] matches Stmt::Scan(
            scan,
        ) ==> scan.alternatives@.len() > 0)
}

/// What a flattened order is known to be.
pub open spec fn accepted(job: Job, from: St, claims: Claimed, gathered: Gathered) -> bool {
    let n = job.stmts.len();
    &&& job.ready()
    &&& gathered.stmts == job.stmts
    &&& standing::emitting_from(
        job.w,
        job.kinds,
        job.st,
        from,
        claims,
        gathered,
        job.order,
    )
    &&& scope::within(from, 0)
    &&& gathering::fine(job.w.cx, job.st)
    &&& collecting::deps_of(job.w.cx, from, claims, job.stmts, n).0.reports.len()
        == from.reports.len()
    &&& all_claims(job.w.cx, job.stmts, n).no_duplicates()
    &&& forall|i: int, symbol: Symbol|
        #![trigger claims_of(job.w.cx, claims.capturable, job.stmts[i]).contains(symbol)]
        0 <= i < n && claims_of(job.w.cx, claims.capturable, job.stmts[i]).contains(symbol) ==> (
        if job.stmts[i] is Scan {
            claims.rows.contains(symbol)
        } else {
            claims.aliased.contains(symbol)
        })
    &&& typing::typed(job.w, job.kinds, job.st.bindings, job.stmts)
    &&& reorder::is_order(n, job.order)
    &&& all_range(job)
    &&& scope::clean(
        job.st,
        emitting::before_the_head(
            job.w.cx,
            job.at(job.order.len()).0,
            job.at(job.order.len()).1->0,
        ).0,
    )
}

/// What a flattening starts with: constants, whatever the registers hold.
pub open spec fn beginning(job: Job) -> Found {
    running::found_in(job.st, Seq::empty())
}

/// The variables bound before a statement, as places and as what stands for something.
pub open spec fn sense_at(job: Job, k: nat) -> Sense {
    matching::sense_of(job.at(k).0.bindings, Seq::empty())
}

proof fn lemma_not_dead(job: Job, from: St, claims: Claimed, gathered: Gathered, k: nat)
    requires
        accepted(job, from, claims, gathered),
        k <= job.order.len(),
    ensures
        !answering::dead(job.stmts, job.order, k),
{
    if answering::dead(job.stmts, job.order, k) {
        let j = choose|j: int|
            0 <= j < k && (job.stmts[#[trigger] job.order[j] as int] matches Stmt::Scan(scan)
                && scan.alternatives@.len() == 0);
        assert(job.order[j] < job.stmts.len());
        assert(job.stmts[job.order[j] as int] is Scan);
    }
}

/// By the emitted order, what the safety check has is bound, each at its kind.
proof fn lemma_emitted(job: Job, from: St, claims: Claimed, gathered: Gathered, k: nat)
    requires
        accepted(job, from, claims, gathered),
        k <= job.order.len(),
    ensures
        job.at(k).1 is Some,
        scope::clean(job.st, job.at(k).0),
        heads::records(job.at(k).0.bindings),
        standing::kinded(job.kinds, job.at(k).0.bindings),
        job.at(k).0.hoisted == job.w.hoisted,
        forall|symbol: Symbol|
            scope::bound_after(job.st, gathered, job.order, k).contains(symbol) ==> (
            #[trigger] model::lookup(job.at(k).0.bindings, symbol)) is Some,
{
    job.lemma_at(k);
    lemma_not_dead(job, from, claims, gathered, k);
    standing::lemma_order(
        job.w,
        job.kinds,
        job.st,
        from,
        claims,
        gathered,
        job.order,
        k,
    );
}

/// The reads of a statement are bound when it is its turn.
proof fn lemma_reads_at(job: Job, from: St, claims: Claimed, gathered: Gathered, k: nat)
    requires
        accepted(job, from, claims, gathered),
        k < job.order.len(),
    ensures
        ({
            let i = job.order[k as int] as int;
            let scanned = collecting::deps_of(job.w.cx, from, claims, job.stmts, i as nat).0;
            let occurs = collecting::stmt_occurs(job.w.cx, scanned, claims, job.stmt(k));
            &&& i < job.stmts.len()
            &&& scanned.hoisted == job.w.hoisted
            &&& occurs.0.reports.len() == scanned.reports.len()
            &&& reads_stand(occurs.1, sense_at(job, k))
            &&& typing::typed_stmt(job.w, job.kinds, job.stmts, job.stmt(k))
            &&& running::proper(job.w, job.kinds, job.stmt(k))
        }),
{
    let i = job.order[k as int] as int;
    let w = job.w;
    lemma_emitted(job, from, claims, gathered, k);
    standing::lemma_reads(w, job.kinds, job.st, from, claims, gathered, job.order, k);
    assert(job.order[k as int] < job.stmts.len());
    gathering::lemma_deps(w.cx, from, claims, job.stmts, i as nat);
    let n = job.stmts.len();
    lemma_deps_grow(w.cx, from, claims, job.stmts, 0, i as nat);
    lemma_deps_grow(w.cx, from, claims, job.stmts, i as nat, i as nat + 1);
    lemma_deps_grow(w.cx, from, claims, job.stmts, i as nat + 1, n);
    assert(typing::typed_stmt(w, job.kinds, job.stmts, job.stmts[i]));
    let scanned = collecting::deps_of(w.cx, from, claims, job.stmts, i as nat).0;
    let seen = collecting::stmt_occurs(w.cx, scanned, claims, job.stmt(k)).1;
    assert forall|symbol: Symbol| #[trigger] seen.reads.contains(symbol) implies sense_at(job, k)(
        symbol,
    ) is Some by {
        assert(model::lookup(job.at(k).0.bindings, symbol) is Some);
    }
}

/// What is bound by both accounts is the same.
proof fn lemma_vars(job: Job, from: St, claims: Claimed, gathered: Gathered, k: nat)
    requires
        accepted(job, from, claims, gathered),
        k <= job.order.len(),
    ensures
        forall|symbol: Symbol|
            #![trigger model::lookup(job.at(k).0.bindings, symbol)]
            joining::bound(
                job.w,
                beginning(job).sense,
                job.stmts,
                job.order,
                k,
                symbol,
            ) == model::lookup(job.at(k).0.bindings, symbol) is Some,
    decreases k,
{
    if k > 0 {
        let j = (k - 1) as nat;
        lemma_vars(job, from, claims, gathered, j);
        lemma_emitted(job, from, claims, gathered, j);
        lemma_emitted(job, from, claims, gathered, k);
        lemma_reads_at(job, from, claims, gathered, j);
        let w = job.w;
        let (st, built) = job.at(j);
        let after = job.at(k).0;
        let stmt = job.stmt(j);
        assert(job.at(k) == emitting::emitted_stmt(w.cx, st, built->0, stmt));
        running::lemma_stmt_more(w.cx, st, built->0, stmt);
        assert forall|symbol: Symbol|
            #![trigger model::lookup(after.bindings, symbol)]
            joining::bound(
            w,
            beginning(job).sense,
            job.stmts,
            job.order,
            k,
            symbol,
        ) == model::lookup(after.bindings, symbol) is Some by {
            assert(joining::bound(
                w,
                beginning(job).sense,
                job.stmts,
                job.order,
                j,
                symbol,
            ) == model::lookup(st.bindings, symbol) is Some);
            lemma_left(job, from, claims, gathered, j, symbol);
        }
    }
}

/// A statement binds just what it leaves standing for something.
#[verifier::rlimit(30)]
proof fn lemma_left(
    job: Job,
    from: St,
    claims: Claimed,
    gathered: Gathered,
    k: nat,
    symbol: Symbol,
)
    requires
        accepted(job, from, claims, gathered),
        k < job.order.len(),
    ensures
        model::lookup(job.at(k + 1).0.bindings, symbol) is Some == (model::lookup(
            job.at(k).0.bindings,
            symbol,
        ) is Some || joining::leaves(job.w, job.stmt(k), symbol)),
{
    let w = job.w;
    let cx = w.cx;
    lemma_emitted(job, from, claims, gathered, k);
    lemma_emitted(job, from, claims, gathered, k + 1);
    lemma_reads_at(job, from, claims, gathered, k);
    let (st, found) = job.at(k);
    let built = found->0;
    let after = job.at(k + 1).0;
    let stmt = job.stmt(k);
    let i = job.order[k as int] as int;
    assert(job.at(k + 1) == emitting::emitted_stmt(cx, st, built, stmt));
    running::lemma_stmt_more(cx, st, built, stmt);
    match stmt {
        Stmt::Scan(scan) => {
            let alts = scan.alternatives@;
            assert(job.stmts[i] is Scan);
            let sense = sense_at(job, k);
            running::lemma_senses(st.bindings, Seq::empty());
            let (s1, b1) = emitting::fetch_alts(cx, st, built, alts, alts.len());
            let here = b1.next();
            heads::lemma_fetch_alts_alike(cx, st, built, alts, alts.len());
            running::lemma_fetch_more_alts(cx, st, built, alts, alts.len());
            running::lemma_scan_sources_grow(cx, s1, alts, alts.len(), here, s1.bindings.len());
            running::lemma_scan_sources(w, sense, s1, alts, alts.len(), here);
            let taken = reading::bindings(w, sense, scan);
            let slots = matching::slots_at(here, taken);
            typing::lemma_shared(w, sense, alts, alts.len(), symbol);
            lemma_lookup_sum(st.bindings, slots, symbol);
            assert(reading::taken_in(taken, symbol) == (exists|j: int|
                0 <= j < slots.len() && (#[trigger] slots[j]).0 == symbol)) by {
                if reading::taken_in(taken, symbol) {
                    let j = choose|j: int|
                        0 <= j < taken.len() && (#[trigger] taken[j]).0 == symbol;
                    assert(slots[j].0 == symbol);
                }
                if exists|j: int| 0 <= j < slots.len() && (#[trigger] slots[j]).0 == symbol {
                    let j = choose|j: int|
                        0 <= j < slots.len() && (#[trigger] slots[j]).0 == symbol;
                    assert(taken[j].0 == symbol);
                }
            }
            let both = st.bindings + slots;
            if let Some(row) = scan.row {
                let slot = Slot::Row { address: here, predicate: Some(alts[0].predicate) };
                assert(after.bindings == both.push((row, slot)));
                assert(after.bindings.drop_last() =~= both);
            } else {
                assert(after.bindings == both);
            }
        },
        Stmt::Alias(alias) => {
            let (s1, b1) = emitting::fetch_within(cx, st, built, alias.value);
            let (s2, b2) = emitting::fetch_within(cx, s1, b1, alias.pattern);
            let (s3, place) = model::resolve(cx, s2, alias.value);
            heads::lemma_fetch_alike(cx, st, built, alias.value);
            heads::lemma_fetch_alike(cx, s1, b1, alias.pattern);
            running::lemma_fetch_more(cx, st, built, alias.value);
            running::lemma_fetch_more(cx, s1, b1, alias.pattern);
            matching::lemma_resolve_only(cx, s2, alias.value);
            lemma_finds(job, from, claims, gathered, k, alias);
            let slot = place->0;
            running::lemma_bind_only(cx, s3, alias.pattern, slot);
            lemma_bind_only(cx, s3, alias.pattern, slot);
            heads::lemma_resolved_record(cx, s2, alias.value);
            heads::lemma_bind(cx, s3, alias.pattern, slot);
        },
        Stmt::Negate(tested) => {
            let alts = tested.alternatives@;
            let here = built.next();
            running::lemma_test_sources_grow(cx, st, alts, alts.len(), here);
            running::lemma_tested(w, st, alts, alts.len(), here);
            assert(after.bindings =~= st.bindings);
        },
        Stmt::Constrain(_) => {},
    }
}

/// An alias finds its value when it is its turn.
proof fn lemma_finds(
    job: Job,
    from: St,
    claims: Claimed,
    gathered: Gathered,
    k: nat,
    alias: Alias,
)
    requires
        accepted(job, from, claims, gathered),
        k < job.order.len(),
        job.stmt(k) == Stmt::Alias(alias),
    ensures
        heads::alias_finds(job.w.cx, job.at(k).0, job.at(k).1->0, alias),
        standing::rooted(job.w.cx, job.at(k).0, alias.value),
        typing::compares(job.w, job.stmts, alias) ==> standing::rooted(
            job.w.cx,
            job.at(k).0,
            alias.pattern,
        ),
{
    let w = job.w;
    lemma_emitted(job, from, claims, gathered, k);
    lemma_emitted(job, from, claims, gathered, k + 1);
    lemma_reads_at(job, from, claims, gathered, k);
    let (st, found) = job.at(k);
    let i = job.order[k as int] as int;
    let scanned = collecting::deps_of(w.cx, from, claims, job.stmts, i as nat).0;
    assert(job.at(k + 1) == emitting::emitted_stmt(w.cx, st, found->0, job.stmt(k)));
    running::lemma_stmt_more(w.cx, st, found->0, job.stmt(k));
    assert forall|symbol: Symbol|
        collecting::stmt_occurs(
            w.cx,
            scanned,
            claims,
            Stmt::Alias(alias),
        ).1.reads.contains(symbol) implies (#[trigger] model::lookup(
        st.bindings,
        symbol,
    )) is Some by {
        assert(sense_at(job, k)(symbol) is Some);
    }
    standing::lemma_roots(w.cx, st, scanned, claims, alias);
    standing::lemma_alias(w, job.kinds, job.stmts, st, found->0, alias);
}

/// The first statement that leaves a variable standing for something.
proof fn lemma_first(
    w: World,
    begun: Sense,
    stmts: Seq<Stmt>,
    order: Seq<usize>,
    k: nat,
    symbol: Symbol,
) -> (q: nat)
    requires
        joining::bound(w, begun, stmts, order, k, symbol),
        begun(symbol) is None,
    ensures
        q < k,
        joining::leaves(w, stmts[order[q as int] as int], symbol),
        !joining::bound(w, begun, stmts, order, q, symbol),
    decreases k,
{
    let j = (k - 1) as nat;
    if joining::bound(w, begun, stmts, order, j, symbol) {
        lemma_first(w, begun, stmts, order, j, symbol)
    } else {
        j
    }
}

/// A statement only adds compares.
#[verifier::rlimit(60)]
#[verifier::spinoff_prover]
proof fn lemma_compares_step(job: Job, from: St, claims: Claimed, gathered: Gathered, k: nat)
    requires
        accepted(job, from, claims, gathered),
        k < job.order.len(),
    ensures
        job.at(k).0.compares.is_prefix_of(job.at(k + 1).0.compares),
{
    let w = job.w;
    job.lemma_at(k);
    job.lemma_to_the_end(k);
    job.lemma_at(k + 1);
    job.lemma_to_the_end(k + 1);
    lemma_reads_at(job, from, claims, gathered, k);
    let (st, found) = job.at(k);
    let built = found->0;
    let (after, next) = job.at(k + 1);
    let stmt = job.stmt(k);
    assert(job.at(k + 1) == emitting::emitted_stmt(w.cx, st, built, stmt));
    match stmt {
        Stmt::Scan(scan) => {
            let alts = scan.alternatives@;
            let sense = sense_at(job, k);
            running::lemma_senses(st.bindings, Seq::empty());
            let (s1, b1) = emitting::fetch_alts(w.cx, st, built, alts, alts.len());
            let here = b1.next();
            running::lemma_fetch_more_alts(w.cx, st, built, alts, alts.len());
            running::lemma_scan_sources_grow(
                w.cx,
                s1,
                alts,
                alts.len(),
                here,
                s1.bindings.len(),
            );
            running::lemma_fetch_alts_typed(w, st, built, alts, alts.len());
            running::lemma_scan_sources(w, sense, s1, alts, alts.len(), here);
            assert(after.compares == st.compares);
        },
        Stmt::Alias(alias) => {
            let (s1, b1) = emitting::fetch_within(w.cx, st, built, alias.value);
            let (s2, b2) = emitting::fetch_within(w.cx, s1, b1, alias.pattern);
            let (s3, place) = model::resolve(w.cx, s2, alias.value);
            running::lemma_fetch_more(w.cx, st, built, alias.value);
            running::lemma_fetch_more(w.cx, s1, b1, alias.pattern);
            matching::lemma_resolve_only(w.cx, s2, alias.value);
            if let Some(slot) = place {
                running::lemma_bind_only(w.cx, s3, alias.pattern, slot);
                lemma_bind_only(w.cx, s3, alias.pattern, slot);
            }
            running::lemma_fetch_typed(w, st, built, alias.value);
            running::lemma_fetch_typed(w, s1, b1, alias.pattern);
            assert(s3.compares == st.compares);
        },
        Stmt::Negate(tested) => {
            let alts = tested.alternatives@;
            let here = built.next();
            running::lemma_test_sources_grow(w.cx, st, alts, alts.len(), here);
            running::lemma_tested(w, st, alts, alts.len(), here);
            assert(after.compares == st.compares);
        },
        Stmt::Constrain(_) => {},
    }
    assert(st.compares.is_prefix_of(after.compares)) by {
        assert(st.compares.subrange(0, st.compares.len() as int) =~= st.compares);
    }
}

/// Compares are only added.
proof fn lemma_compares(job: Job, from: St, claims: Claimed, gathered: Gathered, k: nat)
    requires
        accepted(job, from, claims, gathered),
        k <= job.order.len(),
    ensures
        job.at(k).0.compares.is_prefix_of(job.done().0.compares),
    decreases job.order.len() - k,
{
    let n = job.order.len();
    let ours = job.at(k).0.compares;
    let last = job.done().0.compares;
    if k == n {
        job.lemma_at(k);
        job.lemma_to_the_end(k);
        assert(ours == last);
        assert(last.subrange(0, last.len() as int) =~= last);
    } else {
        lemma_compares_step(job, from, claims, gathered, k);
        lemma_compares(job, from, claims, gathered, k + 1);
        let after = job.at(k + 1).0.compares;
        assert(last.subrange(0, ours.len() as int) =~= after.subrange(0, ours.len() as int));
    }
}

/// A row, and what an alias names, is new when it is its statement's turn.
proof fn lemma_fresh(
    job: Job,
    from: St,
    claims: Claimed,
    gathered: Gathered,
    k: nat,
    symbol: Symbol,
)
    requires
        accepted(job, from, claims, gathered),
        k < job.order.len(),
        claims_of(job.w.cx, claims.capturable, job.stmt(k)).contains(symbol),
    ensures
        model::lookup(job.at(k).0.bindings, symbol) is None,
{
    let w = job.w;
    let begun = beginning(job).sense;
    let i = job.order[k as int] as int;
    lemma_vars(job, from, claims, gathered, k);
    lemma_emitted(job, from, claims, gathered, k);
    lemma_reads_at(job, from, claims, gathered, k);
    if model::lookup(job.at(k).0.bindings, symbol) is Some {
        assert(joining::bound(w, begun, job.stmts, job.order, k, symbol));
        if begun(symbol) is Some {
            lemma_no_constant(job, from, claims, gathered, k, symbol);
        } else {
            let q = lemma_first(w, begun, job.stmts, job.order, k, symbol);
            let j = job.order[q as int] as int;
            assert(job.order[q as int] != job.order[k as int]);
            assert(job.order[q as int] < job.stmts.len());
            lemma_vars(job, from, claims, gathered, q);
            lemma_reads_at(job, from, claims, gathered, q);
            assert(model::lookup(job.at(q).0.bindings, symbol) is None);
            let scanned = collecting::deps_of(w.cx, from, claims, job.stmts, j as nat).0;
            let seen = collecting::stmt_occurs(w.cx, scanned, claims, job.stmt(q)).1;
            assert(!seen.reads.contains(symbol));
            match job.stmt(q) {
                Stmt::Scan(scan) => {
                    if scan.row == Some(symbol) {
                        assert(seq![symbol][0] == symbol);
                        lemma_claimed_once(w.cx, job.stmts, i, j, symbol);
                    } else {
                        lemma_claimed_read(job, from, claims, gathered, k, q, scan, symbol);
                    }
                },
                Stmt::Alias(alias) => {
                    if collecting::is_compare(w.cx, alias, claims.capturable) {
                        let vars = model::bare_variables(w.cx, alias.pattern);
                        assert(w.cx.ast.kind(alias.pattern) == ExprKind::Var(symbol));
                        let left = collecting::scan_read(
                            w.cx,
                            scanned,
                            alias.pattern,
                            Occurs::none(),
                        );
                        lemma_read(Occurs::none(), symbol, symbol);
                        lemma_scan_read(w.cx, scanned, alias.value, left, symbol);
                    } else {
                        lemma_claimed_once(w.cx, job.stmts, i, j, symbol);
                    }
                },
                _ => {},
            }
        }
    }
}

/// No row and no alias has a constant's name.
proof fn lemma_no_constant(
    job: Job,
    from: St,
    claims: Claimed,
    gathered: Gathered,
    k: nat,
    symbol: Symbol,
)
    requires
        accepted(job, from, claims, gathered),
        k < job.order.len(),
        claims_of(job.w.cx, claims.capturable, job.stmt(k)).contains(symbol),
    ensures
        (beginning(job).sense)(symbol) is None,
{
    if (beginning(job).sense)(symbol) is Some {
        lemma_constant_compared(job, from, claims, gathered, k, symbol);
    }
}

/// A constant's name that is claimed would be reported.
#[verifier::rlimit(30)]
proof fn lemma_constant_compared(
    job: Job,
    from: St,
    claims: Claimed,
    gathered: Gathered,
    k: nat,
    symbol: Symbol,
)
    requires
        accepted(job, from, claims, gathered),
        k < job.order.len(),
        claims_of(job.w.cx, claims.capturable, job.stmt(k)).contains(symbol),
        (beginning(job).sense)(symbol) is Some,
    ensures
        (beginning(job).sense)(symbol) is None,
{
    let w = job.w;
    let cx = w.cx;
    lemma_reads_at(job, from, claims, gathered, k);
    lemma_emitted(job, from, claims, gathered, k);
    lemma_emitted(job, from, claims, gathered, k + 1);
    standing::lemma_lookup(job.kinds, job.st.bindings, symbol);
    gathering::lemma_lookup(cx, job.st.bindings, symbol);
    let node = model::lookup(job.st.bindings, symbol)->0->Const_0;
    assert((job.kinds)(symbol).form == Form::Const(node));
    let i = job.order[k as int] as int;
    match job.stmt(k) {
        Stmt::Scan(scan) => {
            assert(job.stmts[i] is Scan);
            assert(scan.row == Some(symbol));
            assert(typing::typed_alt(w, job.kinds, scan.alternatives@[0]));
        },
        Stmt::Alias(alias) => {
            let (st, found) = job.at(k);
            let built = found->0;
            lemma_kept(job, from, claims, gathered, k, symbol);
            assert(job.at(k + 1) == emitting::emitted_stmt(cx, st, built, job.stmt(k)));
            running::lemma_stmt_more(cx, st, built, job.stmt(k));
            let (s1, b1) = emitting::fetch_within(cx, st, built, alias.value);
            let (s2, b2) = emitting::fetch_within(cx, s1, b1, alias.pattern);
            let (s3, place) = model::resolve(cx, s2, alias.value);
            heads::lemma_fetch_alike(cx, st, built, alias.value);
            heads::lemma_fetch_alike(cx, s1, b1, alias.pattern);
            running::lemma_fetch_more(cx, st, built, alias.value);
            running::lemma_fetch_more(cx, s1, b1, alias.pattern);
            matching::lemma_resolve_only(cx, s2, alias.value);
            lemma_finds(job, from, claims, gathered, k, alias);
            let slot = place->0;
            running::lemma_bind_only(cx, s3, alias.pattern, slot);
            lemma_bind_constant(cx, s3, alias.pattern, slot, symbol);
            let after = job.at(k + 1).0;
            let x = choose|x: int|
                0 <= x < after.compares.len() && (#[trigger] after.compares[x]).left is Const;
            lemma_compares(job, from, claims, gathered, k + 1);
            let (last, whole) = job.done();
            assert(last.compares.subrange(0, after.compares.len() as int)[x] == last.compares[x]);
            let bare = St { compares: Seq::empty(), ..last };
            let n = last.compares.len();
            finishing::lemma_compared_grow(cx, bare, whole, last.compares, n);
            let (s4, b4) = emitting::compared_all(cx, bare, whole, last.compares, n);
            let free = St { constraints: Seq::empty(), ..s4 };
            finishing::lemma_constrained_grow(
                cx,
                free,
                b4,
                s4.constraints,
                0,
                s4.constraints.len(),
            );
            job.lemma_at(job.order.len());
            job.lemma_to_the_end(job.order.len());
            lemma_only_fields(cx, bare, whole, last.compares, n, x);
        },
        _ => {},
    }
}

/// A constant's name stays a constant's name.
proof fn lemma_kept(
    job: Job,
    from: St,
    claims: Claimed,
    gathered: Gathered,
    k: nat,
    symbol: Symbol,
)
    requires
        accepted(job, from, claims, gathered),
        k <= job.order.len(),
        model::lookup(job.st.bindings, symbol) matches Some(Slot::Const(_)),
    ensures
        model::lookup(job.at(k).0.bindings, symbol) matches Some(Slot::Const(_)),
    decreases k,
{
    if k > 0 {
        let j = (k - 1) as nat;
        lemma_kept(job, from, claims, gathered, j, symbol);
        lemma_const_step(job, from, claims, gathered, j, symbol);
    }
}

/// A scan leaves what is bound where it is.
proof fn lemma_scan_keeps(w: World, st: St, built: Built, scan: Gen, symbol: Symbol)
    requires
        scan.alternatives@.len() > 0,
        scan.row != Some(symbol),
        model::lookup(st.bindings, symbol) is Some,
        emitting::emitted_stmt(w.cx, st, built, Stmt::Scan(scan)).1 is Some,
        scope::clean(st, emitting::emitted_stmt(w.cx, st, built, Stmt::Scan(scan)).0),
    ensures
        model::lookup(
            emitting::emitted_stmt(w.cx, st, built, Stmt::Scan(scan)).0.bindings,
            symbol,
        ) == model::lookup(st.bindings, symbol),
{
    let cx = w.cx;
    let after = emitting::emitted_stmt(cx, st, built, Stmt::Scan(scan)).0;
    let alts = scan.alternatives@;
    let sense = matching::sense_of(st.bindings, Seq::empty());
    running::lemma_senses(st.bindings, Seq::empty());
    let (s1, b1) = emitting::fetch_alts(cx, st, built, alts, alts.len());
    let here = b1.next();
    heads::lemma_fetch_alts_alike(cx, st, built, alts, alts.len());
    running::lemma_fetch_more_alts(cx, st, built, alts, alts.len());
    running::lemma_scan_sources_grow(cx, s1, alts, alts.len(), here, s1.bindings.len());
    running::lemma_scan_sources(w, sense, s1, alts, alts.len(), here);
    let taken = reading::bindings(w, sense, scan);
    let slots = matching::slots_at(here, taken);
    typing::lemma_shared(w, sense, alts, alts.len(), symbol);
    assert(sense(symbol) is Some);
    lemma_lookup_kept(st.bindings, slots, symbol, taken);
    let both = st.bindings + slots;
    if let Some(row) = scan.row {
        let slot = Slot::Row { address: here, predicate: Some(alts[0].predicate) };
        assert(after.bindings == both.push((row, slot)));
        assert(after.bindings.drop_last() =~= both);
    } else {
        assert(after.bindings == both);
    }
}

/// An alias leaves what is bound where it is.
proof fn lemma_alias_keeps(cx: Cx, st: St, built: Built, alias: Alias, symbol: Symbol)
    requires
        model::lookup(st.bindings, symbol) is Some,
    ensures
        model::lookup(
            emitting::emitted_stmt(cx, st, built, Stmt::Alias(alias)).0.bindings,
            symbol,
        ) == model::lookup(st.bindings, symbol),
{
    let after = emitting::emitted_stmt(cx, st, built, Stmt::Alias(alias)).0;
    let (s1, b1) = emitting::fetch_within(cx, st, built, alias.value);
    let (s2, b2) = emitting::fetch_within(cx, s1, b1, alias.pattern);
    let (s3, place) = model::resolve(cx, s2, alias.value);
    heads::lemma_fetch_alike(cx, st, built, alias.value);
    heads::lemma_fetch_alike(cx, s1, b1, alias.pattern);
    matching::lemma_resolve_only(cx, s2, alias.value);
    if let Some(slot) = place {
        lemma_bind_only(cx, s3, alias.pattern, slot);
        assert(model::lookup(after.bindings, symbol) == model::lookup(s3.bindings, symbol));
    }
}

/// A statement leaves what is bound where it is.
proof fn lemma_stmt_keeps(w: World, st: St, built: Built, stmt: Stmt, symbol: Symbol)
    requires
        stmt matches Stmt::Scan(scan) ==> scan.alternatives@.len() > 0 && scan.row != Some(symbol),
        model::lookup(st.bindings, symbol) is Some,
        emitting::emitted_stmt(w.cx, st, built, stmt).1 is Some,
        scope::clean(st, emitting::emitted_stmt(w.cx, st, built, stmt).0),
    ensures
        model::lookup(emitting::emitted_stmt(w.cx, st, built, stmt).0.bindings, symbol)
            == model::lookup(st.bindings, symbol),
{
    match stmt {
        Stmt::Scan(scan) => lemma_scan_keeps(w, st, built, scan, symbol),
        Stmt::Alias(alias) => lemma_alias_keeps(w.cx, st, built, alias, symbol),
        Stmt::Negate(tested) => {
            let alts = tested.alternatives@;
            let here = built.next();
            running::lemma_test_sources_grow(w.cx, st, alts, alts.len(), here);
            running::lemma_tested(w, st, alts, alts.len(), here);
            assert(emitting::emitted_stmt(w.cx, st, built, stmt).0.bindings =~= st.bindings);
        },
        Stmt::Constrain(_) => {},
    }
}

/// No row has a constant's name.
#[verifier::rlimit(60)]
#[verifier::spinoff_prover]
proof fn lemma_no_row(job: Job, from: St, claims: Claimed, gathered: Gathered, k: nat, scan: Gen)
    requires
        accepted(job, from, claims, gathered),
        k < job.order.len(),
        job.stmt(k) == Stmt::Scan(scan),
    ensures
        scan.alternatives@.len() > 0,
        scan.row matches Some(row) ==> model::lookup(job.st.bindings, row) is None,
{
    lemma_reads_at(job, from, claims, gathered, k);
    assert(job.stmts[job.order[k as int] as int] == Stmt::Scan(scan));
    assert(typing::typed_alt(job.w, job.kinds, scan.alternatives@[0]));
    if let Some(row) = scan.row {
        standing::lemma_lookup(job.kinds, job.st.bindings, row);
        gathering::lemma_lookup(job.w.cx, job.st.bindings, row);
    }
}

proof fn lemma_const_step(
    job: Job,
    from: St,
    claims: Claimed,
    gathered: Gathered,
    k: nat,
    symbol: Symbol,
)
    requires
        accepted(job, from, claims, gathered),
        k < job.order.len(),
        model::lookup(job.st.bindings, symbol) is Some,
        model::lookup(job.at(k).0.bindings, symbol) is Some,
    ensures
        model::lookup(job.at(k + 1).0.bindings, symbol) == model::lookup(
            job.at(k).0.bindings,
            symbol,
        ),
{
    let stmt = job.stmt(k);
    if let Stmt::Scan(scan) = stmt {
        lemma_no_row(job, from, claims, gathered, k, scan);
    }
    job.lemma_at(k);
    job.lemma_at(k + 1);
    let (st, found) = job.at(k);
    let next = emitting::emitted_stmt(job.w.cx, st, found->0, stmt);
    assert(job.order[k as int] < job.stmts.len());
    assert(job.at(k + 1) == next);
    running::lemma_stmt_more(job.w.cx, st, found->0, stmt);
    lemma_stmt_keeps(job.w, st, found->0, stmt, symbol);
}

proof fn lemma_lookup_kept(
    bindings: Seq<(Symbol, Slot)>,
    more: Seq<(Symbol, Slot)>,
    symbol: Symbol,
    taken: Seq<(Symbol, Place)>,
)
    requires
        more.len() == taken.len(),
        forall|j: int| 0 <= j < more.len() ==> (#[trigger] more[j]).0 == taken[j].0,
        !reading::taken_in(taken, symbol),
    ensures
        model::lookup(bindings + more, symbol) == model::lookup(bindings, symbol),
    decreases more.len(),
{
    let all = bindings + more;
    if more.len() == 0 {
        assert(all =~= bindings);
    } else {
        let (shorter, less) = (more.drop_last(), taken.drop_last());
        assert(all.drop_last() =~= bindings + shorter);
        assert(all.last() == more.last());
        assert(more[more.len() - 1].0 == taken[more.len() - 1].0);
        assert forall|j: int| 0 <= j < shorter.len() implies (#[trigger] shorter[j]).0
            == less[j].0 by {
            assert(more[j].0 == taken[j].0);
        }
        assert(!reading::taken_in(less, symbol)) by {
            if reading::taken_in(less, symbol) {
                let j = choose|j: int| 0 <= j < less.len() && (#[trigger] less[j]).0 == symbol;
                assert(taken[j].0 == symbol);
            }
        }
        lemma_lookup_kept(bindings, shorter, symbol, less);
    }
}

/// A scan only reads what another statement says what it is.
proof fn lemma_claimed_read(
    job: Job,
    from: St,
    claims: Claimed,
    gathered: Gathered,
    k: nat,
    q: nat,
    scan: Gen,
    symbol: Symbol,
)
    requires
        accepted(job, from, claims, gathered),
        k < job.order.len(),
        q < job.order.len(),
        claims_of(job.w.cx, claims.capturable, job.stmt(k)).contains(symbol),
        job.stmt(q) == Stmt::Scan(scan),
        joining::in_all(job.w, scan.alternatives@, symbol),
    ensures
        ({
            let j = job.order[q as int] as int;
            let scanned = collecting::deps_of(job.w.cx, from, claims, job.stmts, j as nat).0;
            collecting::stmt_occurs(job.w.cx, scanned, claims, job.stmt(q)).1.reads.contains(
                symbol,
            )
        }),
{
    let w = job.w;
    let i = job.order[k as int] as int;
    let j = job.order[q as int] as int;
    let alts = scan.alternatives@;
    lemma_reads_at(job, from, claims, gathered, k);
    lemma_reads_at(job, from, claims, gathered, q);
    let scanned = collecting::deps_of(w.cx, from, claims, job.stmts, j as nat).0;
    assert forall|x: int| 0 <= x < alts.len() implies w.cx.ast.has((#[trigger] alts[x]).key)
        && w.cx.schema.predicate(alts[x].predicate) is Some by {
        assert(typing::typed_alt(w, job.kinds, alts[x]));
    }
    lemma_branches(w, sense_at(job, q), scanned, claims, alts, alts.len(), symbol);
    let all = typing::occurring(w, alts[0]);
    assert(reading::taken_in(typing::occurring(w, alts[0]), symbol));
    let m = choose|m: int| 0 <= m < all.len() && (#[trigger] all[m]).0 == symbol;
    assert(claims_of(w.cx, claims.capturable, job.stmts[i]).contains(symbol));
    assert(collecting::only_read(claims, typing::place_ty(all[m].1), symbol)) by {
        if let Stmt::Scan(own) = job.stmt(k) {
            assert(job.stmts[i] is Scan);
            assert(typing::typed_alt(w, job.kinds, own.alternatives@[0]));
            assert(typing::typed_alt(w, job.kinds, alts[0]));
            assert(typing::fits((job.kinds)(all[m].0), all[m].1));
        }
    }
    assert(claimed_at(claims, typing::occurring(w, alts[0]), symbol));
    let reads = collecting::scan_branches(w.cx, scanned, claims, alts, alts.len()).1;
    let row_reads = (match scan.row {
        Some(row) => Occurs::none().capture(row),
        None => Occurs::none(),
    }).reads;
    lemma_in_sum(row_reads, reads, symbol);
    let with_reads = Occurs {
        reads: row_reads + reads,
        ..(match scan.row {
            Some(row) => Occurs::none().capture(row),
            None => Occurs::none(),
        })
    };
    let captures = collecting::scan_branches(w.cx, scanned, claims, alts, alts.len()).2;
    lemma_common_reads(with_reads, captures, if captures.len() == 0 {
        0
    } else {
        captures[0].len()
    });
}

proof fn lemma_common_reads(occurs: Occurs, captures: Seq<Seq<Symbol>>, k: nat)
    ensures
        collecting::capture_common(occurs, captures, k).reads == occurs.reads,
    decreases k,
{
    if k > 0 {
        lemma_common_reads(occurs, captures, (k - 1) as nat);
    }
}

/// Each variable is of the form in which a scan of the order takes it, and what an alias
/// compares are fields.
pub open spec fn formed_in(job: Job) -> bool {
    &&& forall|k: int|
        0 <= k < job.order.len() ==> (job.stmts[#[trigger] job.order[k] as int] matches
            Stmt::Scan(scan) ==> all_formed(
            job.kinds,
            reading::bindings(
                job.w,
                joining::standing(
                    job.w,
                    beginning(job).sense,
                    job.stmts,
                    job.order,
                    k as nat,
                ),
                scan,
            ),
        ))
    &&& forall|i: int|
        0 <= i < job.stmts.len() ==> ((#[trigger] job.stmts[i]) matches Stmt::Alias(alias)
            ==> typing::compares(job.w, job.stmts, alias) ==> (job.kinds)(
            job.w.cx.ast.kind(alias.pattern)->Var_0,
        ).form is Field && (job.kinds)(job.w.cx.ast.kind(alias.value)->Var_0).form is Field)
}

/// Each is of the form in which it is taken.
pub open spec fn all_formed(kinds: Kinds, taken: Seq<(Symbol, Place)>) -> bool {
    forall|j: int| 0 <= j < taken.len() ==> joining::formed(kinds, #[trigger] taken[j])
}

proof fn lemma_same_vars(job: Job, from: St, claims: Claimed, gathered: Gathered, k: nat)
    requires
        accepted(job, from, claims, gathered),
        k <= job.order.len(),
    ensures
        ({
            let vars = joining::standing(
                job.w,
                beginning(job).sense,
                job.stmts,
                job.order,
                k,
            );
            joining::same_vars(sense_at(job, k), vars) && joining::same_vars(
                vars,
                sense_at(job, k),
            )
        }),
{
    lemma_vars(job, from, claims, gathered, k);
    let vars = joining::standing(job.w, beginning(job).sense, job.stmts, job.order, k);
    assert forall|symbol: Symbol| (#[trigger] vars(symbol)) is Some == sense_at(job, k)(
        symbol,
    ) is Some by {
        assert(joining::bound(
            job.w,
            beginning(job).sense,
            job.stmts,
            job.order,
            k,
            symbol,
        ) == model::lookup(job.at(k).0.bindings, symbol) is Some);
    }
    assert forall|symbol: Symbol| (#[trigger] sense_at(job, k)(symbol)) is Some == vars(
        symbol,
    ) is Some by {
        assert(vars(symbol) is Some == sense_at(job, k)(symbol) is Some);
    }
}

/// A scan is ready when it is its turn.
#[verifier::rlimit(30)]
proof fn lemma_scan_ready(
    job: Job,
    from: St,
    claims: Claimed,
    gathered: Gathered,
    k: nat,
    scan: Gen,
)
    requires
        accepted(job, from, claims, gathered),
        formed_in(job),
        k < job.order.len(),
        job.stmt(k) == Stmt::Scan(scan),
    ensures
        joining::scan_ready(job.w, job.kinds, sense_at(job, k), scan),
{
    let w = job.w;
    let cx = w.cx;
    let alts = scan.alternatives@;
    let sense = sense_at(job, k);
    lemma_emitted(job, from, claims, gathered, k);
    lemma_emitted(job, from, claims, gathered, k + 1);
    lemma_reads_at(job, from, claims, gathered, k);
    lemma_same_vars(job, from, claims, gathered, k);
    let (st, found) = job.at(k);
    let built = found->0;
    let i = job.order[k as int] as int;
    assert(job.stmts[i] is Scan);
    assert(job.at(k + 1) == emitting::emitted_stmt(cx, st, built, job.stmt(k)));
    running::lemma_stmt_more(cx, st, built, job.stmt(k));
    running::lemma_senses(st.bindings, Seq::empty());
    let (s1, b1) = emitting::fetch_alts(cx, st, built, alts, alts.len());
    let here = b1.next();
    heads::lemma_fetch_alts_alike(cx, st, built, alts, alts.len());
    running::lemma_fetch_more_alts(cx, st, built, alts, alts.len());
    running::lemma_scan_sources_grow(cx, s1, alts, alts.len(), here, s1.bindings.len());
    running::lemma_scan_sources(w, sense, s1, alts, alts.len(), here);
    let scanned = collecting::deps_of(cx, from, claims, job.stmts, i as nat).0;
    assert(alts_known(w, alts)) by {
        assert forall|x: int| 0 <= x < alts.len() implies cx.ast.has((#[trigger] alts[x]).key)
            && cx.schema.predicate(alts[x].predicate) is Some by {
            assert(typing::typed_alt(w, job.kinds, alts[x]));
        }
    }
    let any: Symbol = arbitrary();
    lemma_branches(w, sense, scanned, claims, alts, alts.len(), any);
    let (_, reads, captures) = collecting::scan_branches(cx, scanned, claims, alts, alts.len());
    let own = match scan.row {
        Some(row) => Occurs::none().capture(row),
        None => Occurs::none(),
    };
    let with_reads = Occurs { reads: own.reads + reads, ..own };
    lemma_common_reads(with_reads, captures, if captures.len() == 0 {
        0
    } else {
        captures[0].len()
    });
    let seen = collecting::stmt_occurs(cx, scanned, claims, job.stmt(k)).1;
    assert(seen.reads == own.reads + reads);
    assert forall|x: Symbol| #[trigger] reads.contains(x) implies sense(x) is Some by {
        lemma_in_sum(own.reads, reads, x);
        assert(seen.reads.contains(x));
    }
    assert forall|x: int| 0 <= x < alts.len() implies joining::alt_ready(
        w,
        sense,
        #[trigger] alts[x],
    ) by {
        assert(likeness::covered(w, sense, alts[x].key, reading::key_of(w, alts[x])));
        assert(cx.ast.has(alts[x].key));
    }
    if let Some(row) = scan.row {
        assert(typing::typed_alt(w, job.kinds, alts[0]));
        assert(seq![row][0] == row);
        assert(claims_of(cx, claims.capturable, job.stmt(k)).contains(row));
        lemma_fresh(job, from, claims, gathered, k, row);
    }
    let vars = joining::standing(w, beginning(job).sense, job.stmts, job.order, k);
    joining::lemma_same_shared(w, vars, sense, alts, alts.len());
    assert(all_formed(job.kinds, reading::bindings(w, vars, scan))) by {
        assert(job.stmts[job.order[k as int] as int] == Stmt::Scan(scan));
    }
    let taken = reading::bindings(w, sense, scan);
    assert forall|j: int| 0 <= j < taken.len() implies joining::formed(
        job.kinds,
        #[trigger] taken[j],
    ) by {}
}

/// Every statement is ready when it is its turn.
#[verifier::rlimit(30)]
proof fn lemma_stmt_ready(job: Job, from: St, claims: Claimed, gathered: Gathered, k: nat)
    requires
        accepted(job, from, claims, gathered),
        formed_in(job),
        k < job.order.len(),
    ensures
        joining::stmt_ready(
            job.w,
            job.kinds,
            job.stmts,
            joining::standing(job.w, beginning(job).sense, job.stmts, job.order, k),
            job.stmt(k),
        ),
{
    let w = job.w;
    let cx = w.cx;
    let sense = sense_at(job, k);
    lemma_emitted(job, from, claims, gathered, k);
    lemma_reads_at(job, from, claims, gathered, k);
    lemma_same_vars(job, from, claims, gathered, k);
    let (st, found) = job.at(k);
    let i = job.order[k as int] as int;
    let scanned = collecting::deps_of(cx, from, claims, job.stmts, i as nat).0;
    let seen = collecting::stmt_occurs(cx, scanned, claims, job.stmt(k)).1;
    match job.stmt(k) {
        Stmt::Scan(scan) => lemma_scan_ready(job, from, claims, gathered, k, scan),
        Stmt::Negate(tested) => {
            let alts = tested.alternatives@;
            lemma_not_dead(job, from, claims, gathered, k);
            running::lemma_senses(st.bindings, Seq::empty());
            let stmt = job.stmt(k);
            assert(running::all_bound(w, st.bindings, alts));
            running::lemma_all_bound(w, sense, st.bindings, alts);
            assert(alts_known(w, alts)) by {
                assert forall|x: int| 0 <= x < alts.len() implies cx.ast.has(
                    (#[trigger] alts[x]).key,
                ) && cx.schema.predicate(alts[x].predicate) is Some by {
                    assert(typing::typed_alt(w, job.kinds, alts[x]));
                }
            }
            let all = collecting::scan_alts(cx, scanned, claims, alts, alts.len(), Occurs::none()).1;
            assert forall|x: Symbol| #[trigger] all.reads.contains(x) implies sense(x) is Some by {
                standing::lemma_read_all(
                    Occurs { captures: Seq::empty(), ..all },
                    all.captures,
                    all.captures.len(),
                    x,
                );
                assert(seen.reads.contains(x));
            }
            lemma_alts(w, sense, scanned, claims, alts, alts.len(), Occurs::none());
            assert forall|x: int| 0 <= x < alts.len() implies joining::alt_ready(
                w,
                sense,
                #[trigger] alts[x],
            ) && reading::takes_key(w, sense, alts[x].key, reading::key_of(w, alts[x])) == Seq::<
                (Symbol, Place),
            >::empty() by {
                assert(cx.ast.has(alts[x].key));
            }
        },
        Stmt::Alias(alias) => {
            lemma_finds(job, from, claims, gathered, k, alias);
            lemma_known_root(w, sense, alias.value);
            let kind = choose|kind: Kind| #[trigger]
                typing::has_kind(w, job.kinds, alias.value, kind) && (if typing::compares(
                    w,
                    job.stmts,
                    alias,
                ) {
                    (job.kinds)(cx.ast.kind(alias.pattern)->Var_0).ty == kind.ty
                } else {
                    typing::pattern_typed(w, job.kinds, alias.pattern, kind)
                });
            if typing::compares(w, job.stmts, alias) {
                assert(job.stmts[i] == Stmt::Alias(alias));
                assert(kind.form is Field);
            } else {
                lemma_own_once(cx, job.stmts, i);
                let names = model::bare_variables(cx, alias.pattern);
                assert forall|symbol: Symbol| names.contains(symbol) implies (
                #[trigger] sense(symbol)) is None by {
                    lemma_fresh(job, from, claims, gathered, k, symbol);
                }
            }
            assert(joining::alias_ready(w, job.kinds, job.stmts, sense, alias));
        },
        Stmt::Constrain(_) => {},
    }
    joining::lemma_ready_same(
        w,
        job.kinds,
        job.stmts,
        sense,
        joining::standing(w, beginning(job).sense, job.stmts, job.order, k),
        job.stmt(k),
    );
}

/// What a query flattened in an order is required to be: each variable of one type, over
/// facts of the types their predicates declare.
pub open spec fn flattens<S: FactStore>(
    job: Job,
    store: S,
    names: Names,
    reports: Seq<Report>,
    compiled: Compiled,
) -> bool {
    let outcome = flatten::outcome(
        job.w.cx.ast,
        job.w.cx.schema,
        names,
        reports,
        Some(job.order),
    );
    &&& laws::is_job_of(job, names, reports, Some(job.order))
    &&& outcome.1 == Some(compiled)
    &&& outcome.0.sealed
    &&& compiled.nvars <= usize::MAX
    &&& job.w.cx.ast.wf()
    &&& typing::typed(job.w, job.kinds, job.st.bindings, job.stmts)
    &&& running::peopled(job.w.cx, job.w.names)
    &&& running::closed(job.w)
    &&& running::reads(job.w, store)
    &&& matching::well_typed(job.w.cx, job.w.names, store)
    &&& reorder::is_order(job.stmts.len(), job.order)
}

/// A query that flattens in an order binds before it reads, by the account of its meaning.
#[verifier::rlimit(40)]
proof fn lemma_legal<S: FactStore>(
    job: Job,
    store: S,
    names: Names,
    reports: Seq<Report>,
    compiled: Compiled,
)
    requires
        flattens(job, store, names, reports, compiled),
        formed_in(job),
        all_range(job),
    ensures
        joining::legal(job.w, job.kinds, beginning(job).sense, job.stmts, job.order),
        joining::lively(job.w, job.kinds, beginning(job).sense),
{
    let w = job.w;
    let cx = w.cx;
    let head = cx.ast.root().head;
    let n = job.order.len();
    assert(Cx { ast: cx.ast, schema: cx.schema } == cx);
    laws::lemma_fair(job, names, reports, Some(job.order));
    laws::lemma_clean(job);
    let begun = flatten::beginning(names, reports);
    let (s1, found) = collecting::collected(cx, begun);
    let gathered = found->0;
    scope::lemma_collected_gathers(cx, begun);
    scope::lemma_safety(cx, s1, gathered, job.order);
    assert(job.st == s1);
    scope::law_an_order_is_safe_iff_it_binds_before_it_reads(cx, s1, gathered, job.order);
    assert(gathering::fine(cx, begun));
    gathering::lemma_collected(cx, begun);
    let (from, claims, scanned) = heads::lemma_collected(cx, begun);
    let before = choose|before: St|
        before.reports.len() == from.reports.len() && #[trigger] collecting::claimed(
            cx,
            before,
            job.stmts,
            job.stmts.len(),
        ) == (from, claims);
    lemma_claims(cx, before, job.stmts, job.stmts.len());
    assert(standing::kinded(job.kinds, s1.bindings)) by {
        assert forall|i: int| 0 <= i < s1.bindings.len() implies standing::slot_fits(
            (#[trigger] s1.bindings[i]).1,
            (job.kinds)(s1.bindings[i].0),
        ) by {
            assert(gathering::constant_slot(cx, s1.bindings[i].1));
        }
    }
    assert(job.ready());
    assert(standing::emitting_from(w, job.kinds, s1, from, claims, gathered, job.order));
    assert(accepted(job, from, claims, gathered));
    let sense = beginning(job).sense;
    assert forall|k: int| 0 <= k < n implies joining::stmt_ready(
        w,
        job.kinds,
        job.stmts,
        joining::standing(w, sense, job.stmts, job.order, k as nat),
        job.stmts[#[trigger] job.order[k] as int],
    ) by {
        lemma_stmt_ready(job, from, claims, gathered, k as nat);
    }
    lemma_emitted(job, from, claims, gathered, n);
    lemma_same_vars(job, from, claims, gathered, n);
    let seen = collecting::scan_head(cx, scanned, head, Occurs::none()).1;
    assert forall|symbol: Symbol| #[trigger] seen.reads.contains(symbol) implies sense_at(job, n)(
        symbol,
    ) is Some by {
        let reads = gathered.head_reads;
        let x = choose|x: int| 0 <= x < reads.len() && reads[x] == symbol;
        assert(scope::bound_after(s1, gathered, job.order, n).contains(reads[x]));
        assert(model::lookup(job.at(n).0.bindings, symbol) is Some);
    }
    lemma_head_said(w, sense_at(job, n), scanned, head, Occurs::none());
    joining::lemma_said_more(
        w,
        sense_at(job, n),
        joining::standing(w, sense, job.stmts, job.order, n),
        head,
    );
    assert forall|symbol: Symbol| (#[trigger] sense(symbol)) is Some implies joining::is_there(
        w,
        sense(symbol)->0,
    ) && joining::is_kind(sense(symbol)->0, (job.kinds)(symbol)) by {
        standing::lemma_lookup(job.kinds, s1.bindings, symbol);
        gathering::lemma_lookup(cx, s1.bindings, symbol);
    }
}

// ---- rows -------------------------------------------------------------------

/// What a projection says, or nothing where it fails.
pub open spec fn said(found: Result<Datum, ApertureError>) -> Option<Datum> {
    match found {
        Ok(d) => Some(d),
        Err(_) => None,
    }
}

/// The rows a program answers, as its head says them, in no order.
pub open spec fn said_rows<S: FactStore>(store: S, names: Names, compiled: Compiled) -> Multiset<
    Option<Datum>,
> {
    answers::answers(
        store,
        compiled.body,
        machine::unbound(compiled.nvars),
        0,
    ).rows.map_values(
        |row: Row| said(iter::projected(store, names, row, compiled.head)),
    ).to_multiset()
}

proof fn lemma_beginning(job: Job, env: Seq<Option<Fact>>)
    requires
        job.fair(),
    ensures
        running::found_in(job.st, env) == beginning(job),
{
    let none = Seq::<Option<Fact>>::empty();
    let (a, b) = (running::found_in(job.st, env), beginning(job));
    let kinds = Seq::<Seq<PredicateId>>::empty();
    assert forall|symbol: Symbol| (a.sense)(symbol) == #[trigger] (b.sense)(symbol) by {
        running::lemma_lookup_typed(
            job.w.cx,
            job.st.names,
            kinds,
            job.st.bindings,
            symbol,
        );
        if let Some(slot) = model::lookup(job.st.bindings, symbol) {
            assert(running::typed_slot(job.w.cx, job.st.names, kinds, slot));
            assert(matching::sound_slot(job.w.cx, job.st.names, none, slot));
        }
    }
    assert(a.sense =~= b.sense);
    assert(a.pairs =~= b.pairs) by {
        assert forall|i: int| 0 <= i < a.pairs.len() implies a.pairs[i] == #[trigger] b.pairs[i] by {
            let one = job.st.compares[i];
            assert(running::typed_slot(job.w.cx, job.st.names, kinds, one.left));
            assert(running::typed_slot(job.w.cx, job.st.names, kinds, one.right));
        }
    }
}

/// What a compiled query's rows say is what its readings say.
pub proof fn lemma_said<S: FactStore>(
    job: Job,
    store: S,
    names: Names,
    reports: Seq<Report>,
    compiled: Compiled,
)
    requires
        flattens(job, store, names, reports, compiled),
    ensures
        said_rows(store, job.w.names, compiled) == orders::rows(
            job.w,
            reading::meant(job.w, job.stmts, job.order, beginning(job)),
        ),
{
    laws::lemma_fair(job, names, reports, Some(job.order));
    laws::law_a_compiled_query_answers_what_it_means(
        job,
        store,
        names,
        reports,
        Some(job.order),
        compiled,
    );
    let env = machine::unbound(compiled.nvars);
    lemma_beginning(job, env);
    let found = answers::answers(store, compiled.body, env, 0);
    let meant = reading::meant(job.w, job.stmts, job.order, beginning(job));
    let ours = found.rows.map_values(
        |row: Row| said(iter::projected(store, job.w.names, row, compiled.head)),
    );
    let theirs = meant.map_values(
        |way: Found| reading::value(job.w, way.sense, job.w.cx.ast.root().head),
    );
    assert forall|i: int| 0 <= i < ours.len() implies ours[i] == theirs[i] by {
        assert(laws::says(
            iter::projected(store, job.w.names, found.rows[i], compiled.head),
            reading::value(job.w, meant[i].sense, job.w.cx.ast.root().head),
        ));
    }
    assert(ours =~= theirs);
}

/// A query flattened in two orders of its body gives two programs that answer the same rows
/// over one store, each as often: the order of the loops is a matter of speed.
///
/// Each variable has one kind, in the form in which the orders take it, and no key type names
/// a field twice. A variable that some alternatives of a pattern name and others do not is
/// bound before the pattern in both orders, or in neither: it is read by the pattern in the
/// one case, and local to it in the other.
#[verifier::rlimit(30)]
pub proof fn law_every_order_answers_the_same_rows<S: FactStore>(
    one: Job,
    other: Job,
    store: S,
    names: Names,
    reports: Seq<Report>,
    first: Compiled,
    second: Compiled,
)
    requires
        other == (Job { order: other.order, ..one }),
        flattens(one, store, names, reports, first),
        flattens(other, store, names, reports, second),
        formed_in(one),
        formed_in(other),
        forall|p: PredicateId|
            (#[trigger] one.w.cx.schema.predicate(p)) matches Some(declared)
                ==> likeness::named_once(declared.key),
        joining::unmixed(one.w, beginning(one).sense, one.stmts, one.order, other.order),
    ensures
        said_rows(store, one.w.names, first) == said_rows(store, one.w.names, second),
{
    let w = one.w;
    lemma_said(one, store, names, reports, first);
    lemma_said(other, store, names, reports, second);
    if all_range(one) {
        assert forall|k: int| 0 <= k < other.order.len() implies (
        other.stmts[#[trigger] other.order[k] as int] matches Stmt::Scan(scan)
            ==> scan.alternatives@.len() > 0) by {
            orders::lemma_names_all(one.stmts.len(), one.order, other.order[k]);
            let j = choose|j: int| 0 <= j < one.order.len() && one.order[j] == other.order[k];
            assert(one.stmts[one.order[j] as int] == other.stmts[other.order[k] as int]);
        }
        lemma_legal(one, store, names, reports, first);
        lemma_legal(other, store, names, reports, second);
        assert forall|fact: Fact, p: PredicateId|
            #![trigger w.facts.contains(fact), w.cx.schema.predicate(p)]
            w.facts.contains(fact) && reading::is_of(fact, p) implies matching::of_predicate(
            w.cx,
            w.names,
            fact,
            p,
        ) by {
            let i = choose|i: int| 0 <= i < w.facts.len() && w.facts[i] == fact;
            assert(store.facts()[i] == fact);
        }
        assert(joining::footing(w));
        joining::law_a_join_means_the_same_in_every_order(
            w,
            one.kinds,
            beginning(one),
            one.stmts,
            one.order,
            other.order,
        );
    } else {
        let j = choose|j: int|
            0 <= j < one.order.len() && !(one.stmts[#[trigger] one.order[j] as int] matches
                Stmt::Scan(scan) ==> scan.alternatives@.len() > 0);
        let found = beginning(one);
        assert forall|c: orders::Choices| orders::offered(w, one.stmts, one.order, c) implies
            #[trigger] orders::leaf(w, one.stmts, one.order, found)(c) == orders::leaf(
            w,
            one.stmts,
            other.order,
            found,
        )(c) by {
            let scan = one.stmts[one.order[j] as int]->Scan_0;
            assert(orders::choices(scan.alternatives@, w.facts).contains(c(one.order[j])));
            assert(orders::choices(scan.alternatives@, w.facts).len() == 0);
        }
        orders::lemma_same_rows(w, one.stmts, one.order, other.order, found);
    }
}

/// Queries that mean the same answer the same: two flattened queries whose bodies have the same
/// rows by the account of their meaning give programs that answer the same rows over one store,
/// each as often, however the two are written.
pub proof fn law_queries_that_mean_the_same_answer_the_same_rows<S: FactStore>(
    one: Job,
    other: Job,
    store: S,
    names: Names,
    reports: Seq<Report>,
    first: Compiled,
    second: Compiled,
)
    requires
        flattens(one, store, names, reports, first),
        flattens(other, store, names, reports, second),
        orders::rows(one.w, reading::meant(one.w, one.stmts, one.order, beginning(one)))
            == orders::rows(
            other.w,
            reading::meant(other.w, other.stmts, other.order, beginning(other)),
        ),
    ensures
        said_rows(store, one.w.names, first) == said_rows(store, other.w.names, second),
{
    lemma_said(one, store, names, reports, first);
    lemma_said(other, store, names, reports, second);
}

} // verus!
