//! Heads that are projected: what a head needs besides the variables the safety check
//! answers for.
use vstd::prelude::*;

use super::answering::Job;
use super::collecting;
use super::collecting::{Claimed, Gathered, Occurs};
use super::emitting;
use super::emitting::Built;
use super::finishing;
use super::gathering;
use super::laws;
use super::matching;
use super::model;
use super::model::{Alias, Alt, Cx, Gen, Slot, St, Stmt};
use super::running;
use super::scope;
use crate::iter::Address;
use crate::plan::Route;
use crate::reading;
use crate::reading::typing;
use crate::reading::{Place, Sense, World};
use crate::reorder::StmtDeps;
use crate::schema::{NameKey, Names, PredicateTy, Symbol};
use crate::syntax::{ExprKind, Literal, NodeId};

verus! {

// ---- what a head needs ------------------------------------------------------

/// A constant whose strings are all known.
pub open spec fn spelled(cx: Cx, names: Names, node: NodeId) -> bool
    decreases node.0,
{
    match cx.ast.kind(node) {
        ExprKind::Lit(Literal::Int(_)) => true,
        ExprKind::Lit(Literal::Str(symbol)) => names.text(symbol) is Some,
        ExprKind::Record(fields) => forall|i: int|
            0 <= i < fields@.len() ==> (#[trigger] fields@[i]).1.0 < node.0 && spelled(
                cx,
                names,
                fields@[i].1,
            ),
        _ => false,
    }
}

/// If a place is a constant, its strings are all known.
pub open spec fn shown(cx: Cx, st: St, place: Option<Slot>) -> bool {
    place matches Some(Slot::Const(folded)) ==> spelled(cx, st.names, folded)
}

/// A head finds what it reads, whatever its variables are: every string is known, every
/// fact pattern has a row, and every field that is read is there.
pub open spec fn finds(cx: Cx, st: St, node: NodeId) -> bool
    decreases node.0,
{
    match cx.ast.kind(node) {
        ExprKind::Lit(Literal::Str(symbol)) => st.names.text(symbol) is Some,
        ExprKind::Record(fields) => forall|i: int|
            0 <= i < fields@.len() ==> (#[trigger] fields@[i]).1.0 < node.0 && finds(
                cx,
                st,
                fields@[i].1,
            ),
        ExprKind::Var(symbol) => shown(cx, st, model::lookup(st.bindings, symbol)),
        ExprKind::Fact(_, _) => {
            &&& model::hoisted_row(st.hoisted, node) matches Some(row)
            &&& shown(cx, st, model::lookup(st.bindings, row))
        },
        ExprKind::Access(_, _) => {
            &&& model::resolve(cx, st, node).1 is Some
            &&& shown(cx, st, model::resolve(cx, st, node).1)
        },
        ExprKind::Select(_, _) => false,
        _ => true,
    }
}

/// When it is an alias's turn, its value is somewhere.
pub open spec fn alias_finds(cx: Cx, st: St, built: Built, alias: Alias) -> bool {
    let (s1, b1) = emitting::fetch_within(cx, st, built, alias.value);
    let (s2, b2) = emitting::fetch_within(cx, s1, b1, alias.pattern);
    model::resolve(cx, s2, alias.value).1 is Some
}

/// Every alias of an order names something that is there.
pub open spec fn aliases_find(cx: Cx, st: St, stmts: Seq<Stmt>, order: Seq<usize>) -> bool {
    forall|k: int|
        0 <= k < order.len() ==> (stmts[#[trigger] order[k] as int] matches Stmt::Alias(alias)
            ==> alias_finds(
            cx,
            emitting::emitted_stmts(cx, st, stmts, order, k as nat).0,
            emitting::emitted_stmts(cx, st, stmts, order, k as nat).1->0,
            alias,
        ))
}

// ---- projecting -------------------------------------------------------------

/// Every whole key that is bound is a record.
pub open spec fn records(bindings: Seq<(Symbol, Slot)>) -> bool {
    forall|i: int|
        0 <= i < bindings.len() ==> ((#[trigger] bindings[i]).1 matches Slot::Key { ty, .. }
            ==> ty is Record)
}

proof fn lemma_lookup_record(bindings: Seq<(Symbol, Slot)>, symbol: Symbol)
    requires
        records(bindings),
    ensures
        model::lookup(bindings, symbol) matches Some(Slot::Key { ty, .. }) ==> ty is Record,
    decreases bindings.len(),
{
    if bindings.len() > 0 {
        let shorter = bindings.drop_last();
        assert(records(shorter)) by {
            assert(forall|i: int| 0 <= i < shorter.len() ==> #[trigger] shorter[i] == bindings[i]);
        }
        assert(bindings[bindings.len() - 1] == bindings.last());
        lemma_lookup_record(shorter, symbol);
    }
}

/// A constant whose strings are known is projected.
proof fn lemma_spelled(cx: Cx, st: St, node: NodeId)
    requires
        spelled(cx, st.names, node),
    ensures
        cx.ast.constant(node),
        emitting::projected(cx, st, node).1 is Some,
        emitting::projected(cx, st, node).0 == st,
    decreases node.0, 1nat,
{
    if let ExprKind::Record(fields) = cx.ast.kind(node) {
        assert forall|i: int| 0 <= i < fields@.len() implies (#[trigger] fields@[i]).1.0 < node.0
            && cx.ast.constant(fields@[i].1) by {
            lemma_spelled(cx, st, fields@[i].1);
        }
        assert(cx.ast.constant(node));
        lemma_spelled_fields(cx, st, node, fields@, fields@.len());
    }
}

proof fn lemma_spelled_fields(
    cx: Cx,
    st: St,
    node: NodeId,
    fields: Seq<(Symbol, NodeId)>,
    k: nat,
)
    requires
        k <= fields.len(),
        forall|i: int|
            0 <= i < fields.len() ==> (#[trigger] fields[i]).1.0 < node.0 && spelled(
                cx,
                st.names,
                fields[i].1,
            ),
    ensures
        emitting::projected_fields(cx, st, node, fields, k).1 is Some,
        emitting::projected_fields(cx, st, node, fields, k).0 == st,
    decreases node.0, 0nat, k,
{
    if k > 0 {
        lemma_spelled_fields(cx, st, node, fields, (k - 1) as nat);
        assert(fields[k - 1].1.0 < node.0);
        lemma_spelled(cx, st, fields[k - 1].1);
    }
}

/// What is read of a field is no whole key.
proof fn lemma_no_key(cx: Cx, st: St, node: NodeId)
    requires
        cx.ast.kind(node) is Access,
    ensures
        !(model::resolve(cx, st, node).1 matches Some(Slot::Key { .. })),
{
}

/// Walking a head only adds to what it reads and to what is reported.
pub proof fn lemma_scan_grows(cx: Cx, st: St, node: NodeId, occurs: Occurs)
    ensures
        st.reports.len() <= collecting::scan_head(cx, st, node, occurs).0.reports.len(),
        collecting::scan_head(cx, st, node, occurs).0.hoisted == st.hoisted,
        forall|symbol: Symbol|
            occurs.reads.contains(symbol) ==> (#[trigger] collecting::scan_head(
                cx,
                st,
                node,
                occurs,
            ).1.reads.contains(symbol)),
    decreases node.0, 1nat, 0nat,
{
    let after = collecting::scan_head(cx, st, node, occurs).1;
    if let ExprKind::Record(fields) = cx.ast.kind(node) {
        lemma_scan_fields_grow(cx, st, node, fields@, fields@.len(), occurs);
    } else {
        assert forall|symbol: Symbol| occurs.reads.contains(symbol) implies (
        #[trigger] after.reads.contains(symbol)) by {
            let i = choose|i: int| 0 <= i < occurs.reads.len() && occurs.reads[i] == symbol;
            assert(after.reads[i] == symbol);
        }
    }
}

pub proof fn lemma_scan_fields_grow(
    cx: Cx,
    st: St,
    node: NodeId,
    fields: Seq<(Symbol, NodeId)>,
    k: nat,
    occurs: Occurs,
)
    ensures
        st.reports.len() <= collecting::scan_head_fields(
            cx,
            st,
            node,
            fields,
            k,
            occurs,
        ).0.reports.len(),
        collecting::scan_head_fields(cx, st, node, fields, k, occurs).0.hoisted == st.hoisted,
        forall|symbol: Symbol|
            occurs.reads.contains(symbol) ==> (#[trigger] collecting::scan_head_fields(
                cx,
                st,
                node,
                fields,
                k,
                occurs,
            ).1.reads.contains(symbol)),
    decreases node.0, 0nat, k,
{
    if k > 0 {
        lemma_scan_fields_grow(cx, st, node, fields, (k - 1) as nat, occurs);
        let (s1, o1) = collecting::scan_head_fields(
            cx,
            st,
            node,
            fields,
            (k - 1) as nat,
            occurs,
        );
        if fields[k - 1].1.0 < node.0 {
            lemma_scan_grows(cx, s1, fields[k - 1].1, o1);
        }
    }
}

/// Every variable a walk of a head reads has a place.
pub open spec fn placed(st: St, occurs: Occurs) -> bool {
    forall|symbol: Symbol| #[trigger]
        occurs.reads.contains(symbol) ==> model::lookup(st.bindings, symbol) is Some
}

proof fn lemma_read(occurs: Occurs, symbol: Symbol)
    ensures
        occurs.read(symbol).reads.contains(symbol),
{
    let after = occurs.read(symbol).reads;
    if !occurs.reads.contains(symbol) {
        assert(after[after.len() - 1] == symbol);
    }
}

/// A head that was walked without a report, whose variables have places and that finds
/// what else it reads, is projected.
proof fn lemma_projected(cx: Cx, st: St, s: St, node: NodeId, scanned: St, occurs: Occurs)
    requires
        laws::alike(s, st),
        records(st.bindings),
        finds(cx, st, node),
        scanned.hoisted == st.hoisted,
        collecting::scan_head(cx, scanned, node, occurs).0.reports.len() == scanned.reports.len(),
        placed(st, collecting::scan_head(cx, scanned, node, occurs).1),
    ensures
        emitting::projected(cx, s, node).1 is Some,
        laws::alike(emitting::projected(cx, s, node).0, st),
    decreases node.0, 1nat, 0nat,
{
    match cx.ast.kind(node) {
        ExprKind::Lit(_) => {},
        ExprKind::Record(fields) => lemma_projected_fields(
            cx,
            st,
            s,
            node,
            fields@,
            fields@.len(),
            scanned,
            occurs,
        ),
        kind => {
            laws::lemma_resolve_alike(cx, s, st, node);
            let (s1, found) = model::resolve(cx, s, node);
            match kind {
                ExprKind::Var(symbol) => {
                    lemma_read(occurs, symbol);
                    lemma_lookup_record(st.bindings, symbol);
                },
                ExprKind::Fact(_, _) => {
                    let row = model::hoisted_row(st.hoisted, node)->0;
                    lemma_read(occurs, row);
                    lemma_lookup_record(st.bindings, row);
                },
                ExprKind::Access(_, _) => lemma_no_key(cx, st, node),
                _ => {},
            }
            if let Some(Slot::Const(folded)) = found {
                lemma_spelled(cx, s1, folded);
            }
        },
    }
}

proof fn lemma_projected_fields(
    cx: Cx,
    st: St,
    s: St,
    node: NodeId,
    fields: Seq<(Symbol, NodeId)>,
    k: nat,
    scanned: St,
    occurs: Occurs,
)
    requires
        cx.ast.kind(node) matches ExprKind::Record(all) && all@ == fields,
        k <= fields.len(),
        laws::alike(s, st),
        records(st.bindings),
        forall|i: int|
            0 <= i < fields.len() ==> (#[trigger] fields[i]).1.0 < node.0 && finds(
                cx,
                st,
                fields[i].1,
            ),
        scanned.hoisted == st.hoisted,
        collecting::scan_head_fields(cx, scanned, node, fields, k, occurs).0.reports.len()
            == scanned.reports.len(),
        placed(st, collecting::scan_head_fields(cx, scanned, node, fields, k, occurs).1),
    ensures
        emitting::projected_fields(cx, s, node, fields, k).1 is Some,
        laws::alike(emitting::projected_fields(cx, s, node, fields, k).0, st),
    decreases node.0, 0nat, k,
{
    if k > 0 {
        let j = (k - 1) as nat;
        let piece = fields[k - 1].1;
        let (c1, o1) = collecting::scan_head_fields(cx, scanned, node, fields, j, occurs);
        assert(piece.0 < node.0);
        lemma_scan_fields_grow(cx, scanned, node, fields, j, occurs);
        lemma_scan_grows(cx, c1, piece, o1);
        let o2 = collecting::scan_head(cx, c1, piece, o1).1;
        assert forall|symbol: Symbol| #[trigger] o1.reads.contains(symbol) implies model::lookup(
            st.bindings,
            symbol,
        ) is Some by {
            assert(o2.reads.contains(symbol));
        }
        lemma_projected_fields(cx, st, s, node, fields, j, scanned, occurs);
        let (s1, before) = emitting::projected_fields(cx, s, node, fields, j);
        lemma_projected(cx, st, s1, piece, c1, o1);
    }
}

// ---- what statements bind ---------------------------------------------------

/// What one state keeps of another: its names, its hoisted rows, and a place for every
/// variable that had one.
pub open spec fn keeps(a: St, b: St) -> bool {
    &&& b.names == a.names
    &&& b.hoisted == a.hoisted
    &&& forall|symbol: Symbol|
        model::lookup(a.bindings, symbol) is Some ==> (#[trigger] model::lookup(
            b.bindings,
            symbol,
        )) is Some
}

/// A variable that is bound stays bound while more is.
pub proof fn lemma_more_bound(
    bindings: Seq<(Symbol, Slot)>,
    more: Seq<(Symbol, Slot)>,
    symbol: Symbol,
)
    ensures
        model::lookup(bindings, symbol) is Some ==> model::lookup(bindings + more, symbol) is Some,
        (exists|j: int| 0 <= j < more.len() && (#[trigger] more[j]).0 == symbol) ==> model::lookup(
            bindings + more,
            symbol,
        ) is Some,
    decreases more.len(),
{
    let all = bindings + more;
    if more.len() == 0 {
        assert(all =~= bindings);
    } else {
        let shorter = more.drop_last();
        assert(all.drop_last() =~= bindings + shorter);
        lemma_more_bound(bindings, shorter, symbol);
        assert(all.last() == more.last());
        if exists|j: int| 0 <= j < more.len() && (#[trigger] more[j]).0 == symbol {
            let j = choose|j: int| 0 <= j < more.len() && (#[trigger] more[j]).0 == symbol;
            if j < more.len() - 1 {
                assert(shorter[j] == more[j]);
            }
        }
    }
}

proof fn lemma_keeps(a: St, b: St, more: Seq<(Symbol, Slot)>)
    requires
        b.names == a.names,
        b.hoisted == a.hoisted,
        b.bindings == a.bindings + more,
    ensures
        keeps(a, b),
{
    assert forall|symbol: Symbol| model::lookup(a.bindings, symbol) is Some implies (
    #[trigger] model::lookup(b.bindings, symbol)) is Some by {
        lemma_more_bound(a.bindings, more, symbol);
    }
}

/// Following references binds nothing.
pub proof fn lemma_fetch_alike(cx: Cx, st: St, built: Built, node: NodeId)
    ensures
        ({
            let after = emitting::fetch_within(cx, st, built, node).0;
            &&& after.bindings == st.bindings
            &&& after.hoisted == st.hoisted
            &&& after.names == st.names
        }),
    decreases node.0, 1nat, 0nat,
{
    match cx.ast.kind(node) {
        ExprKind::Record(fields) => lemma_fetch_fields_alike(
            cx,
            st,
            built,
            node,
            fields@,
            fields@.len(),
        ),
        ExprKind::Access(_, base) => if base.0 < node.0 {
            lemma_fetch_alike(cx, st, built, base);
            let s1 = emitting::fetch_within(cx, st, built, base).0;
            matching::lemma_resolve_only(cx, s1, base);
        },
        ExprKind::Select(_, base) => if base.0 < node.0 {
            lemma_fetch_alike(cx, st, built, base);
            let s1 = emitting::fetch_within(cx, st, built, base).0;
            matching::lemma_resolve_only(cx, s1, base);
        },
        _ => {},
    }
}

proof fn lemma_fetch_fields_alike(
    cx: Cx,
    st: St,
    built: Built,
    node: NodeId,
    fields: Seq<(Symbol, NodeId)>,
    k: nat,
)
    ensures
        ({
            let after = emitting::fetch_fields(cx, st, built, node, fields, k).0;
            &&& after.bindings == st.bindings
            &&& after.hoisted == st.hoisted
            &&& after.names == st.names
        }),
    decreases node.0, 0nat, k,
{
    if k > 0 {
        lemma_fetch_fields_alike(cx, st, built, node, fields, (k - 1) as nat);
        let (s1, b1) = emitting::fetch_fields(cx, st, built, node, fields, (k - 1) as nat);
        if fields[k - 1].1.0 < node.0 {
            lemma_fetch_alike(cx, s1, b1, fields[k - 1].1);
        }
    }
}

pub proof fn lemma_fetch_alts_alike(cx: Cx, st: St, built: Built, alts: Seq<Alt>, k: nat)
    ensures
        ({
            let after = emitting::fetch_alts(cx, st, built, alts, k).0;
            &&& after.bindings == st.bindings
            &&& after.hoisted == st.hoisted
            &&& after.names == st.names
        }),
    decreases k,
{
    if k > 0 {
        lemma_fetch_alts_alike(cx, st, built, alts, (k - 1) as nat);
        let (s1, b1) = emitting::fetch_alts(cx, st, built, alts, (k - 1) as nat);
        lemma_fetch_alike(cx, s1, b1, alts[k - 1].key);
    }
}

/// A field of a place is no whole key.
proof fn lemma_piece_no_key(cx: Cx, st: St, node: NodeId, slot: Slot, name: Symbol)
    ensures
        !(model::field_slot(cx, st, node, slot, name).1 matches Some(Slot::Key { .. })),
{
}

/// Binding a pattern to a place binds every variable in it, where nothing is reported.
pub proof fn lemma_bind(cx: Cx, st: St, pattern: NodeId, slot: Slot)
    requires
        records(st.bindings),
        slot matches Slot::Key { ty, .. } ==> ty is Record,
        scope::clean(st, model::bind_pattern(cx, st, pattern, slot)),
    ensures
        ({
            let after = model::bind_pattern(cx, st, pattern, slot);
            &&& records(after.bindings)
            &&& keeps(st, after)
            &&& forall|symbol: Symbol|
                model::bare_variables(cx, pattern).contains(symbol) ==> (#[trigger] model::lookup(
                    after.bindings,
                    symbol,
                )) is Some
        }),
    decreases pattern.0, 1nat, 0nat,
{
    match cx.ast.kind(pattern) {
        ExprKind::Var(symbol) => if model::lookup(st.bindings, symbol) is None {
            let after = st.binding(symbol, slot);
            assert(after.bindings =~= st.bindings + seq![(symbol, slot)]);
            lemma_keeps(st, after, seq![(symbol, slot)]);
            assert(seq![(symbol, slot)][0].0 == symbol);
            lemma_more_bound(st.bindings, seq![(symbol, slot)], symbol);
            assert(records(after.bindings)) by {
                assert forall|i: int|
                    0 <= i < after.bindings.len() && (
                    #[trigger] after.bindings[i]).1 is Key implies after.bindings[i].1->Key_ty is Record by {
                    if i < st.bindings.len() {
                        assert(after.bindings[i] == st.bindings[i]);
                    }
                }
            }
        },
        ExprKind::Record(fields) => lemma_bind_pieces(
            cx,
            st,
            pattern,
            slot,
            fields@,
            fields@.len(),
        ),
        _ => {},
    }
}

proof fn lemma_bind_pieces(
    cx: Cx,
    st: St,
    pattern: NodeId,
    slot: Slot,
    fields: Seq<(Symbol, NodeId)>,
    k: nat,
)
    requires
        records(st.bindings),
        scope::clean(st, model::bind_pieces(cx, st, pattern, slot, fields, k)),
    ensures
        ({
            let after = model::bind_pieces(cx, st, pattern, slot, fields, k);
            &&& records(after.bindings)
            &&& keeps(st, after)
            &&& forall|symbol: Symbol|
                model::bare_variables_of(cx, pattern, fields, k).contains(symbol) ==> (
                #[trigger] model::lookup(after.bindings, symbol)) is Some
        }),
    decreases pattern.0, 0nat, k,
{
    if k > 0 {
        let j = (k - 1) as nat;
        let s1 = model::bind_pieces(cx, st, pattern, slot, fields, j);
        let (name, piece) = fields[k - 1];
        let (s2, field) = model::field_slot(cx, s1, piece, slot, name);
        running::lemma_bind_pieces_only(cx, st, pattern, slot, fields, j);
        matching::lemma_field_slot_only(cx, s1, piece, slot, name);
        if let Some(place) = field {
            if piece.0 < pattern.0 {
                running::lemma_bind_only(cx, s2, piece, place);
            }
        }
        lemma_bind_pieces(cx, st, pattern, slot, fields, j);
        lemma_piece_no_key(cx, s1, piece, slot, name);
        let after = model::bind_pieces(cx, st, pattern, slot, fields, k);
        if let Some(place) = field {
            if piece.0 < pattern.0 {
                lemma_bind(cx, s2, piece, place);
            }
        }
        let before = model::bare_variables_of(cx, pattern, fields, j);
        let own = if piece.0 < pattern.0 {
            model::bare_variables(cx, piece)
        } else {
            Seq::empty()
        };
        assert forall|symbol: Symbol|
            model::bare_variables_of(cx, pattern, fields, k).contains(symbol) implies (
        #[trigger] model::lookup(after.bindings, symbol)) is Some by {
            lemma_in_either(before, own, symbol);
            if before.contains(symbol) {
                assert(model::lookup(s1.bindings, symbol) is Some);
            }
        }
    }
}

pub proof fn lemma_in_either(a: Seq<Symbol>, b: Seq<Symbol>, symbol: Symbol)
    requires
        (a + b).contains(symbol),
    ensures
        a.contains(symbol) || b.contains(symbol),
{
    let i = choose|i: int| 0 <= i < (a + b).len() && (a + b)[i] == symbol;
    if i < a.len() {
        assert(a[i] == symbol);
    } else {
        assert(b[i - a.len()] == symbol);
    }
}

// ---- what a scan captures ---------------------------------------------------

proof fn lemma_taken_in(a: Seq<(Symbol, Place)>, b: Seq<(Symbol, Place)>, symbol: Symbol)
    requires
        reading::taken_in(a, symbol) || reading::taken_in(b, symbol),
    ensures
        reading::taken_in(a + b, symbol),
{
    let all = a + b;
    if reading::taken_in(a, symbol) {
        let j = choose|j: int| 0 <= j < a.len() && (#[trigger] a[j]).0 == symbol;
        assert(all[j].0 == symbol);
    } else {
        let j = choose|j: int| 0 <= j < b.len() && (#[trigger] b[j]).0 == symbol;
        assert(all[a.len() + j].0 == symbol);
    }
}

/// What a walk of a pattern captures anew, the pattern takes, unless it stands for
/// something already.
proof fn lemma_field_captures(
    w: World,
    sense: Sense,
    st: St,
    node: NodeId,
    ty: PredicateTy,
    path: Route,
    claims: Claimed,
    occurs: Occurs,
    symbol: Symbol,
)
    requires
        collecting::scan_field(w.cx, st, node, ty, claims, occurs).1.captures.contains(symbol),
        !occurs.captures.contains(symbol),
        sense(symbol) is None,
    ensures
        reading::taken_in(reading::takes(w, sense, node, ty, path), symbol),
    decreases node.0, 1nat, 0nat,
{
    match w.cx.ast.kind(node) {
        ExprKind::Var(var) => {
            lemma_captured(occurs, var, symbol);
            assert(reading::takes(w, sense, node, ty, path)[0].0 == symbol);
        },
        ExprKind::Record(fields) => if let PredicateTy::Record(tys) = ty {
            lemma_fields_capture(
                w,
                sense,
                st,
                node,
                fields@,
                tys@,
                tys@.len(),
                path,
                claims,
                occurs,
                symbol,
            );
        },
        _ => {},
    }
}

proof fn lemma_captured(occurs: Occurs, var: Symbol, symbol: Symbol)
    requires
        occurs.capture(var).captures.contains(symbol),
    ensures
        occurs.captures.contains(symbol) || symbol == var,
{
    let after = occurs.capture(var).captures;
    let i = choose|i: int| 0 <= i < after.len() && after[i] == symbol;
    if i < occurs.captures.len() {
        assert(occurs.captures[i] == symbol);
    }
}

#[verifier::rlimit(30)]
proof fn lemma_fields_capture(
    w: World,
    sense: Sense,
    st: St,
    node: NodeId,
    fields: Seq<(Symbol, NodeId)>,
    tys: Seq<(NameKey, PredicateTy)>,
    k: nat,
    path: Route,
    claims: Claimed,
    occurs: Occurs,
    symbol: Symbol,
)
    requires
        w.cx.ast.kind(node) matches ExprKind::Record(all) && all@ == fields,
        collecting::scan_fields(
            w.cx,
            st,
            node,
            fields,
            tys,
            k,
            claims,
            occurs,
        ).1.captures.contains(symbol),
        !occurs.captures.contains(symbol),
        sense(symbol) is None,
    ensures
        reading::taken_in(reading::takes_fields(w, sense, node, fields, tys, k, path), symbol),
    decreases node.0, 0nat, k,
{
    if k > 0 {
        let j = (k - 1) as nat;
        let (s1, o1) = collecting::scan_fields(
            w.cx,
            st,
            node,
            fields,
            tys,
            j,
            claims,
            occurs,
        );
        let before = reading::takes_fields(w, sense, node, fields, tys, j, path);
        let name = Symbol::Schema(tys[k - 1].0);
        let steps = Route::of(path.top(), path.inner().push(j as usize));
        let found = model::field_pattern(fields, name);
        let own = match found {
            Some(inner) => if model::below(w.cx, node, inner) {
                reading::takes(w, sense, inner, tys[k - 1].1, steps)
            } else {
                Seq::empty()
            },
            None => Seq::empty(),
        };
        assert(reading::takes_fields(w, sense, node, fields, tys, k, path) == before + own);
        if o1.captures.contains(symbol) {
            lemma_fields_capture(
                w,
                sense,
                st,
                node,
                fields,
                tys,
                j,
                path,
                claims,
                occurs,
                symbol,
            );
        } else {
            let inner = found->0;
            if w.cx.ast.constant(node) {
                matching::lemma_piece_constant(w.cx, node, fields, name);
            }
            lemma_field_captures(
                w,
                sense,
                s1,
                inner,
                tys[k - 1].1,
                steps,
                claims,
                o1,
                symbol,
            );
        }
        lemma_taken_in(before, own, symbol);
    }
}

/// The same of the fields of a whole key.
proof fn lemma_top_captures(
    w: World,
    sense: Sense,
    st: St,
    node: NodeId,
    fields: Seq<(Symbol, NodeId)>,
    tys: Seq<(NameKey, PredicateTy)>,
    k: nat,
    claims: Claimed,
    occurs: Occurs,
    symbol: Symbol,
)
    requires
        collecting::scan_fields(
            w.cx,
            st,
            node,
            fields,
            tys,
            k,
            claims,
            occurs,
        ).1.captures.contains(symbol),
        !occurs.captures.contains(symbol),
        sense(symbol) is None,
    ensures
        reading::taken_in(reading::takes_top(w, sense, fields, tys, k), symbol),
    decreases k,
{
    if k > 0 {
        let j = (k - 1) as nat;
        let (s1, o1) = collecting::scan_fields(
            w.cx,
            st,
            node,
            fields,
            tys,
            j,
            claims,
            occurs,
        );
        let before = reading::takes_top(w, sense, fields, tys, j);
        let name = Symbol::Schema(tys[k - 1].0);
        let path = Route::of(j as usize, Seq::empty());
        let found = model::field_pattern(fields, name);
        let own = match found {
            Some(inner) => reading::takes(w, sense, inner, tys[k - 1].1, path),
            None => Seq::empty(),
        };
        assert(reading::takes_top(w, sense, fields, tys, k) == before + own);
        if o1.captures.contains(symbol) {
            lemma_top_captures(w, sense, st, node, fields, tys, j, claims, occurs, symbol);
        } else {
            lemma_field_captures(
                w,
                sense,
                s1,
                found->0,
                tys[k - 1].1,
                path,
                claims,
                o1,
                symbol,
            );
        }
        lemma_taken_in(before, own, symbol);
    }
}

proof fn lemma_key_captures(
    w: World,
    sense: Sense,
    st: St,
    node: NodeId,
    ty: PredicateTy,
    claims: Claimed,
    symbol: Symbol,
)
    requires
        collecting::scan_field(w.cx, st, node, ty, claims, Occurs::none()).1.captures.contains(
            symbol,
        ),
        sense(symbol) is None,
    ensures
        reading::taken_in(reading::takes_key(w, sense, node, ty), symbol),
{
    match (ty, w.cx.ast.kind(node)) {
        (PredicateTy::Record(tys), ExprKind::Record(fields)) => lemma_top_captures(
            w,
            sense,
            st,
            node,
            fields@,
            tys@,
            tys@.len(),
            claims,
            Occurs::none(),
            symbol,
        ),
        (PredicateTy::Record(_), ExprKind::Var(var)) => {
            lemma_captured(Occurs::none(), var, symbol);
            assert(reading::takes_key(w, sense, node, ty)[0].0 == symbol);
        },
        (PredicateTy::Record(_), _) => {},
        _ => lemma_field_captures(
            w,
            sense,
            st,
            node,
            ty,
            Route::of(0, Seq::empty()),
            claims,
            Occurs::none(),
            symbol,
        ),
    }
}

/// A world of these declarations, with nothing in it.
pub open spec fn empty_world(cx: Cx, st: St) -> World {
    World {
        cx,
        names: st.names,
        hoisted: st.hoisted,
        constraints: st.constraints,
        facts: Seq::empty(),
        keys: |id: crate::plan::FactId| None,
        values: |id: crate::plan::FactId| None,
    }
}

/// What is captured of branches, every branch captures.
proof fn lemma_common(occurs: Occurs, captures: Seq<Seq<Symbol>>, k: nat, symbol: Symbol)
    requires
        captures.len() > 0,
        k <= captures[0].len(),
        collecting::capture_common(occurs, captures, k).captures.contains(symbol),
    ensures
        occurs.captures.contains(symbol) || collecting::in_all(captures, symbol),
    decreases k,
{
    if k > 0 {
        let before = collecting::capture_common(occurs, captures, (k - 1) as nat);
        let var = captures[0][k - 1];
        if before.captures.contains(symbol) {
            lemma_common(occurs, captures, (k - 1) as nat, symbol);
        } else {
            lemma_captured(before, var, symbol);
        }
    }
}

proof fn lemma_branches(cx: Cx, st: St, claims: Claimed, alts: Seq<Alt>, k: nat)
    ensures
        collecting::scan_branches(cx, st, claims, alts, k).2.len() == k,
        forall|i: int|
            0 <= i < k ==> #[trigger] collecting::scan_branches(cx, st, claims, alts, k).2[i]
                == collecting::scan_key(
                cx,
                collecting::scan_branches(cx, st, claims, alts, i as nat).0,
                alts[i],
                claims,
                Occurs::none(),
            ).1.captures,
    decreases k,
{
    if k > 0 {
        lemma_branches(cx, st, claims, alts, (k - 1) as nat);
        let before = collecting::scan_branches(cx, st, claims, alts, (k - 1) as nat).2;
        let all = collecting::scan_branches(cx, st, claims, alts, k).2;
        assert(forall|i: int| 0 <= i < k - 1 ==> #[trigger] all[i] == before[i]);
    }
}

/// What a scan captures is its row, or taken by every alternative, unless it stands for
/// something already.
proof fn lemma_scan_captures(
    w: World,
    sense: Sense,
    st: St,
    claims: Claimed,
    scan: Gen,
    symbol: Symbol,
)
    requires
        collecting::stmt_occurs(w.cx, st, claims, Stmt::Scan(scan)).1.captures.contains(symbol),
        sense(symbol) is None,
    ensures
        scan.row == Some(symbol) || reading::taken_in(reading::bindings(w, sense, scan), symbol),
{
    let alts = scan.alternatives@;
    let own = match scan.row {
        Some(row) => Occurs::none().capture(row),
        None => Occurs::none(),
    };
    if let Some(row) = scan.row {
        if own.captures.contains(symbol) {
            lemma_captured(Occurs::none(), row, symbol);
        }
    }
    let (after, reads, captures) = collecting::scan_branches(w.cx, st, claims, alts, alts.len());
    lemma_branches(w.cx, st, claims, alts, alts.len());
    let with_reads = Occurs { reads: own.reads + reads, ..own };
    if alts.len() > 0 {
        lemma_common(with_reads, captures, captures[0].len(), symbol);
        if !own.captures.contains(symbol) {
            assert forall|i: int| 0 <= i < alts.len() implies reading::taken_in(
                typing::occurring(w, #[trigger] alts[i]),
                symbol,
            ) by {
                let before = collecting::scan_branches(w.cx, st, claims, alts, i as nat).0;
                assert(captures[i].contains(symbol));
                lemma_key_captures(
                    w,
                    typing::nothing(),
                    before,
                    alts[i].key,
                    reading::key_of(w, alts[i]),
                    claims,
                    symbol,
                );
            }
            typing::lemma_shared(w, sense, alts, alts.len(), symbol);
        }
    }
}

// ---- one statement ----------------------------------------------------------

/// A whole key that a key pattern takes is a record.
pub proof fn lemma_takes_fields(
    w: World,
    sense: Sense,
    node: NodeId,
    ty: PredicateTy,
    path: Route,
)
    ensures
        forall|j: int|
            0 <= j < reading::takes(w, sense, node, ty, path).len() ==> (
            #[trigger] reading::takes(w, sense, node, ty, path)[j]).1 is Field,
    decreases node.0, 1nat, 0nat,
{
    if let (ExprKind::Record(fields), PredicateTy::Record(tys)) = (w.cx.ast.kind(node), ty) {
        lemma_takes_pieces(w, sense, node, fields@, tys@, tys@.len(), path);
    }
}

proof fn lemma_takes_pieces(
    w: World,
    sense: Sense,
    node: NodeId,
    fields: Seq<(Symbol, NodeId)>,
    tys: Seq<(NameKey, PredicateTy)>,
    k: nat,
    path: Route,
)
    ensures
        forall|j: int|
            0 <= j < reading::takes_fields(w, sense, node, fields, tys, k, path).len() ==> (
            #[trigger] reading::takes_fields(w, sense, node, fields, tys, k, path)[j]).1 is Field,
    decreases node.0, 0nat, k,
{
    if k > 0 {
        let j = (k - 1) as nat;
        lemma_takes_pieces(w, sense, node, fields, tys, j, path);
        if let Some(inner) = model::field_pattern(fields, Symbol::Schema(tys[k - 1].0)) {
            if model::below(w.cx, node, inner) {
                lemma_takes_fields(
                    w,
                    sense,
                    inner,
                    tys[k - 1].1,
                    Route::of(path.top(), path.inner().push(j as usize)),
                );
            }
        }
    }
}

pub proof fn lemma_takes_top(
    w: World,
    sense: Sense,
    fields: Seq<(Symbol, NodeId)>,
    tys: Seq<(NameKey, PredicateTy)>,
    k: nat,
)
    ensures
        forall|j: int|
            0 <= j < reading::takes_top(w, sense, fields, tys, k).len() ==> (
            #[trigger] reading::takes_top(w, sense, fields, tys, k)[j]).1 is Field,
    decreases k,
{
    if k > 0 {
        let j = (k - 1) as nat;
        lemma_takes_top(w, sense, fields, tys, j);
        if let Some(inner) = model::field_pattern(fields, Symbol::Schema(tys[k - 1].0)) {
            lemma_takes_fields(
                w,
                sense,
                inner,
                tys[k - 1].1,
                Route::of(j as usize, Seq::empty()),
            );
        }
    }
}

pub proof fn lemma_takes_records(w: World, sense: Sense, node: NodeId, ty: PredicateTy, here: Address)
    ensures
        records(matching::slots_at(here, reading::takes_key(w, sense, node, ty))),
{
    let taken = reading::takes_key(w, sense, node, ty);
    match (ty, w.cx.ast.kind(node)) {
        (PredicateTy::Record(tys), ExprKind::Record(fields)) => lemma_takes_top(
            w,
            sense,
            fields@,
            tys@,
            tys@.len(),
        ),
        (PredicateTy::Record(_), _) => {},
        _ => lemma_takes_fields(w, sense, node, ty, Route::of(0, Seq::empty())),
    }
    let slots = matching::slots_at(here, taken);
    assert forall|i: int|
        0 <= i < slots.len() && (#[trigger] slots[i]).1 is Key implies slots[i].1->Key_ty is Record by {
        assert(slots[i].1 == matching::slot_at(here, taken[i].1));
    }
}

/// Two lists of bindings, one after the other.
proof fn lemma_records(a: Seq<(Symbol, Slot)>, b: Seq<(Symbol, Slot)>)
    requires
        records(a),
        records(b),
    ensures
        records(a + b),
{
    let all = a + b;
    assert forall|i: int|
        0 <= i < all.len() && (#[trigger] all[i]).1 is Key implies all[i].1->Key_ty is Record by {
        if i < a.len() {
            assert(all[i] == a[i]);
        } else {
            assert(all[i] == b[i - a.len()]);
        }
    }
}

/// What a statement captures, but for an alias whose value is nowhere, has a place once
/// the statement is emitted.
#[verifier::rlimit(30)]
pub proof fn lemma_stmt(cx: Cx, st: St, built: Built, stmt: Stmt, scanned: St, claims: Claimed)
    requires
        records(st.bindings),
        emitting::emitted_stmt(cx, st, built, stmt).1 is Some,
        scope::clean(st, emitting::emitted_stmt(cx, st, built, stmt).0),
        stmt matches Stmt::Alias(alias) ==> alias_finds(cx, st, built, alias),
    ensures
        ({
            let after = emitting::emitted_stmt(cx, st, built, stmt).0;
            let occurs = collecting::stmt_occurs(cx, scanned, claims, stmt).1;
            &&& records(after.bindings)
            &&& keeps(st, after)
            &&& forall|symbol: Symbol|
                occurs.captures.contains(symbol) ==> (#[trigger] model::lookup(
                    after.bindings,
                    symbol,
                )) is Some
        }),
{
    let after = emitting::emitted_stmt(cx, st, built, stmt).0;
    let occurs = collecting::stmt_occurs(cx, scanned, claims, stmt).1;
    match stmt {
        Stmt::Scan(scan) => lemma_scan(cx, st, built, scan, scanned, claims),
        Stmt::Alias(alias) => {
            let (s1, b1) = emitting::fetch_within(cx, st, built, alias.value);
            let (s2, b2) = emitting::fetch_within(cx, s1, b1, alias.pattern);
            let (s3, found) = model::resolve(cx, s2, alias.value);
            let slot = found->0;
            lemma_fetch_alike(cx, st, built, alias.value);
            lemma_fetch_alike(cx, s1, b1, alias.pattern);
            running::lemma_fetch_more(cx, st, built, alias.value);
            running::lemma_fetch_more(cx, s1, b1, alias.pattern);
            matching::lemma_resolve_only(cx, s2, alias.value);
            running::lemma_bind_only(cx, s3, alias.pattern, slot);
            lemma_resolved_record(cx, s2, alias.value);
            lemma_bind(cx, s3, alias.pattern, slot);
            let vars = model::bare_variables(cx, alias.pattern);
            assert forall|symbol: Symbol| occurs.captures.contains(symbol) implies (
            #[trigger] model::lookup(after.bindings, symbol)) is Some by {
                if !collecting::is_compare(cx, alias, claims.capturable) {
                    lemma_capture_all(Occurs::none(), vars, vars.len(), symbol);
                }
            }
        },
        Stmt::Negate(tested) => {
            let alts = tested.alternatives@;
            running::lemma_test_sources_grow(cx, st, alts, alts.len(), built.next());
            running::lemma_tested(
                empty_world(cx, st),
                st,
                alts,
                alts.len(),
                built.next(),
            );
            assert(after.bindings =~= st.bindings);
            let (_, all) = collecting::scan_alts(
                cx,
                scanned,
                claims,
                alts,
                alts.len(),
                Occurs::none(),
            );
            lemma_read_all(
                Occurs { captures: Seq::empty(), ..all },
                all.captures,
                all.captures.len(),
            );
        },
        Stmt::Constrain(_) => {},
    }
}

proof fn lemma_read_all(occurs: Occurs, vars: Seq<Symbol>, k: nat)
    ensures
        occurs.read_all(vars, k).captures == occurs.captures,
    decreases k,
{
    if k > 0 {
        lemma_read_all(occurs, vars, (k - 1) as nat);
    }
}

proof fn lemma_capture_all(occurs: Occurs, vars: Seq<Symbol>, k: nat, symbol: Symbol)
    requires
        k <= vars.len(),
        occurs.capture_all(vars, k).captures.contains(symbol),
    ensures
        occurs.captures.contains(symbol) || vars.contains(symbol),
    decreases k,
{
    if k > 0 {
        let before = occurs.capture_all(vars, (k - 1) as nat);
        lemma_captured(before, vars[k - 1], symbol);
        if before.captures.contains(symbol) {
            lemma_capture_all(occurs, vars, (k - 1) as nat, symbol);
        } else {
            assert(vars.contains(vars[k - 1]));
        }
    }
}

/// What an expression resolves to is a record where it is a whole key.
pub proof fn lemma_resolved_record(cx: Cx, st: St, node: NodeId)
    requires
        records(st.bindings),
    ensures
        model::resolve(cx, st, node).1 matches Some(Slot::Key { ty, .. }) ==> ty is Record,
{
    match cx.ast.kind(node) {
        ExprKind::Var(symbol) => lemma_lookup_record(st.bindings, symbol),
        ExprKind::Fact(_, _) => if let Some(row) = model::hoisted_row(st.hoisted, node) {
            lemma_lookup_record(st.bindings, row);
        },
        ExprKind::Access(_, _) => lemma_no_key(cx, st, node),
        _ => {},
    }
}

#[verifier::rlimit(30)]
proof fn lemma_scan(cx: Cx, st: St, built: Built, scan: Gen, scanned: St, claims: Claimed)
    requires
        records(st.bindings),
        emitting::emitted_stmt(cx, st, built, Stmt::Scan(scan)).1 is Some,
        scope::clean(st, emitting::emitted_stmt(cx, st, built, Stmt::Scan(scan)).0),
    ensures
        ({
            let after = emitting::emitted_stmt(cx, st, built, Stmt::Scan(scan)).0;
            let occurs = collecting::stmt_occurs(cx, scanned, claims, Stmt::Scan(scan)).1;
            &&& records(after.bindings)
            &&& keeps(st, after)
            &&& forall|symbol: Symbol|
                occurs.captures.contains(symbol) ==> (#[trigger] model::lookup(
                    after.bindings,
                    symbol,
                )) is Some
        }),
{
    let after = emitting::emitted_stmt(cx, st, built, Stmt::Scan(scan)).0;
    let occurs = collecting::stmt_occurs(cx, scanned, claims, Stmt::Scan(scan)).1;
    let alts = scan.alternatives@;
    let w = empty_world(cx, st);
    let sense = matching::sense_of(st.bindings, Seq::empty());
    running::lemma_senses(st.bindings, Seq::empty());
    let (s1, b1) = emitting::fetch_alts(cx, st, built, alts, alts.len());
    let here = b1.next();
    lemma_fetch_alts_alike(cx, st, built, alts, alts.len());
    running::lemma_fetch_more_alts(cx, st, built, alts, alts.len());
    running::lemma_scan_sources_grow(cx, s1, alts, alts.len(), here, s1.bindings.len());
    let made = emitting::scan_sources(cx, s1, alts, alts.len(), here, s1.bindings.len());
    running::lemma_scan_sources(w, sense, s1, alts, alts.len(), here);
    let taken = reading::bindings(w, sense, scan);
    let slots = matching::slots_at(here, taken);
    assert(records(slots)) by {
        assert forall|i: int| 0 <= i < slots.len() && (#[trigger] slots[i]).1 is Key implies
            slots[i].1->Key_ty is Record by {
            typing::lemma_shared_first(w, sense, alts, alts.len(), i);
            let first = reading::takes_key(w, sense, alts[0].key, reading::key_of(w, alts[0]));
            let x = choose|x: int| 0 <= x < first.len() && first[x] == taken[i];
            lemma_takes_records(w, sense, alts[0].key, reading::key_of(w, alts[0]), here);
            let all = matching::slots_at(here, first);
            assert(all[x] == slots[i]);
        }
    }
    let row_slot = Slot::Row {
        address: here,
        predicate: if alts.len() > 0 {
            Some(alts[0].predicate)
        } else {
            None
        },
    };
    let rows = match scan.row {
        Some(row) => seq![(row, row_slot)],
        None => Seq::empty(),
    };
    let more = slots + rows;
    assert(after.bindings =~= st.bindings + more);
    lemma_keeps(st, after, more);
    lemma_records(slots, rows);
    lemma_records(st.bindings, more);
    assert forall|symbol: Symbol| occurs.captures.contains(symbol) implies (
    #[trigger] model::lookup(after.bindings, symbol)) is Some by {
        lemma_more_bound(st.bindings, more, symbol);
        if model::lookup(st.bindings, symbol) is None {
            lemma_scan_captures(w, sense, scanned, claims, scan, symbol);
            if scan.row == Some(symbol) {
                assert(more[slots.len() as int].0 == symbol);
            } else {
                let j = choose|j: int| 0 <= j < taken.len() && (#[trigger] taken[j]).0 == symbol;
                assert(slots[j].0 == symbol);
                assert(more[j].0 == symbol);
            }
        }
    }
}

// ---- an order ---------------------------------------------------------------

/// A variable a constant was folded into has a place.
pub proof fn lemma_folded(bindings: Seq<(Symbol, Slot)>, k: nat, symbol: Symbol)
    requires
        k <= bindings.len(),
        collecting::folded(bindings, k).contains(symbol),
    ensures
        model::lookup(bindings, symbol) is Some,
    decreases k,
{
    if k > 0 {
        let before = collecting::folded(bindings, (k - 1) as nat);
        if before.contains(symbol) {
            lemma_folded(bindings, (k - 1) as nat, symbol);
        } else {
            let all = collecting::folded(bindings, k);
            let i = choose|i: int| 0 <= i < all.len() && all[i] == symbol;
            if i < before.len() {
                assert(before[i] == symbol);
            }
            let none = Seq::<(Symbol, Slot)>::empty();
            assert(none + bindings =~= bindings);
            assert(bindings[k - 1].0 == symbol);
            lemma_more_bound(none, bindings, symbol);
        }
    }
}

/// What a dependency holds is what its statement captures and reads.
pub open spec fn occurs_of(cx: Cx, st: St, claims: Claimed, gathered: Gathered) -> bool {
    forall|i: int|
        0 <= i < gathered.stmts.len() ==> dep_of(
            cx,
            st,
            claims,
            gathered.stmts,
            i,
            #[trigger] gathered.deps[i],
        )
}

/// A dependency holds what statement `i` captures and reads.
pub open spec fn dep_of(
    cx: Cx,
    st: St,
    claims: Claimed,
    stmts: Seq<Stmt>,
    i: int,
    dep: StmtDeps,
) -> bool {
    let occurs = collecting::stmt_occurs(
        cx,
        collecting::deps_of(cx, st, claims, stmts, i as nat).0,
        claims,
        stmts[i],
    ).1;
    dep.captures@ == occurs.captures && dep.reads@ == occurs.reads
}

proof fn lemma_deps(cx: Cx, st: St, claims: Claimed, stmts: Seq<Stmt>, k: nat)
    requires
        scope::within(st, 0),
        collecting::deps_of(cx, st, claims, stmts, k).0.sealed,
    ensures
        collecting::deps_of(cx, st, claims, stmts, k).1.len() == k,
        forall|i: int|
            0 <= i < k ==> dep_of(
                cx,
                st,
                claims,
                stmts,
                i,
                #[trigger] collecting::deps_of(cx, st, claims, stmts, k).1[i],
            ),
    decreases k,
{
    if k > 0 {
        let j = (k - 1) as nat;
        let (s1, before) = collecting::deps_of(cx, st, claims, stmts, j);
        scope::lemma_deps_gather(cx, st, claims, stmts, j);
        match stmts[k - 1] {
            Stmt::Scan(scan) => {
                let alts = scan.alternatives@;
                scope::lemma_scan_branches_gather(cx, s1, claims, alts, alts.len());
            },
            Stmt::Negate(tested) => {
                let alts = tested.alternatives@;
                scope::lemma_scan_alts_gather(
                    cx,
                    s1,
                    claims,
                    alts,
                    alts.len(),
                    Occurs::none(),
                );
            },
            _ => {},
        }
        lemma_deps(cx, st, claims, stmts, j);
        let all = collecting::deps_of(cx, st, claims, stmts, k).1;
        assert forall|i: int| 0 <= i < k implies dep_of(
            cx,
            st,
            claims,
            stmts,
            i,
            #[trigger] all[i],
        ) by {
            if i < j {
                assert(all[i] == before[i]);
            }
        }
    }
}

/// What is bound by the safety check's account has a place once the statements are
/// emitted.
proof fn lemma_order(
    cx: Cx,
    st: St,
    from: St,
    claims: Claimed,
    gathered: Gathered,
    order: Seq<usize>,
    k: nat,
)
    requires
        k <= order.len(),
        records(st.bindings),
        forall|j: int| 0 <= j < order.len() ==> (#[trigger] order[j]) < gathered.stmts.len(),
        occurs_of(cx, from, claims, gathered),
        aliases_find(cx, st, gathered.stmts, order),
        emitting::emitted_stmts(cx, st, gathered.stmts, order, k).1 is Some,
        scope::clean(st, emitting::emitted_stmts(cx, st, gathered.stmts, order, k).0),
    ensures
        ({
            let after = emitting::emitted_stmts(cx, st, gathered.stmts, order, k).0;
            &&& records(after.bindings)
            &&& keeps(st, after)
            &&& forall|symbol: Symbol|
                scope::bound_after(st, gathered, order, k).contains(symbol) ==> (
                #[trigger] model::lookup(after.bindings, symbol)) is Some
        }),
    decreases k,
{
    let stmts = gathered.stmts;
    let after = emitting::emitted_stmts(cx, st, stmts, order, k).0;
    if k == 0 {
        assert forall|symbol: Symbol|
            scope::bound_after(st, gathered, order, k).contains(symbol) implies (
        #[trigger] model::lookup(after.bindings, symbol)) is Some by {
            lemma_folded(st.bindings, st.bindings.len(), symbol);
        }
    } else {
        let j = (k - 1) as nat;
        let (s1, before) = emitting::emitted_stmts(cx, st, stmts, order, j);
        let i = order[k - 1] as int;
        let job = Job {
            w: empty_world(cx, st),
            kinds: arbitrary(),
            st,
            stmts,
            order,
        };
        job.lemma_since(j);
        assert(order[j as int] < stmts.len());
        running::lemma_stmt_more(cx, s1, before->0, stmts[i]);
        lemma_order(cx, st, from, claims, gathered, order, j);
        let scanned = collecting::deps_of(cx, from, claims, stmts, i as nat).0;
        lemma_stmt(cx, s1, before->0, stmts[i], scanned, claims);
        let own = gathered.deps[i].captures@;
        assert forall|symbol: Symbol|
            scope::bound_after(st, gathered, order, k).contains(symbol) implies (
        #[trigger] model::lookup(after.bindings, symbol)) is Some by {
            let earlier = scope::bound_after(st, gathered, order, j);
            lemma_in_either(earlier, own, symbol);
            if earlier.contains(symbol) {
                assert(model::lookup(s1.bindings, symbol) is Some);
            }
        }
    }
}

/// Of a query that was collected, the head was walked without a report, and every
/// dependency holds what its statement captures.
#[verifier::rlimit(30)]
pub proof fn lemma_collected(cx: Cx, st: St) -> (parts: (St, Claimed, St))
    requires
        scope::within(st, 0),
        collecting::collected(cx, st).1 is Some,
        collecting::collected(cx, st).0.sealed,
    ensures
        ({
            let (from, claims, scanned) = parts;
            let (after, found) = collecting::collected(cx, st);
            let head = collecting::scan_head(cx, scanned, cx.ast.root().head, Occurs::none());
            &&& occurs_of(cx, from, claims, found->0)
            &&& from.hoisted == after.hoisted
            &&& scope::within(from, 0)
            &&& collecting::deps_of(
                cx,
                from,
                claims,
                found->0.stmts,
                found->0.stmts.len(),
            ).0.reports.len() == from.reports.len()
            &&& exists|before: St|
                before.reports.len() == from.reports.len() && #[trigger] collecting::claimed(
                    cx,
                    before,
                    found->0.stmts,
                    found->0.stmts.len(),
                ) == (from, claims)
            &&& claims.capturable == collecting::capturable(
                cx,
                found->0.stmts,
                found->0.stmts.len(),
            )
            &&& scanned.hoisted == after.hoisted
            &&& head.0.reports.len() == scanned.reports.len()
            &&& found->0.head_reads == head.1.reads
            &&& records(after.bindings)
        }),
{
    let query = cx.ast.root();
    let (s1, q1) = collecting::collected_body(cx, st, query.body@, query.body@.len());
    scope::lemma_body_gathers(cx, st, query.body@, query.body@.len());
    let (s2, q2) = collecting::hoist_node(cx, s1, q1, query.head);
    scope::lemma_hoist_node_gathers(cx, s1, q1, query.head);
    let stmts = collecting::all_oriented(cx, q2);
    let (s3, claims) = collecting::claimed(cx, s2, stmts, stmts.len());
    scope::lemma_claimed_gathers(cx, s2, stmts, stmts.len());
    let (s4, deps) = collecting::deps_of(cx, s3, claims, stmts, stmts.len());
    scope::lemma_deps_gather(cx, s3, claims, stmts, stmts.len());
    let known = collecting::all_captures(deps, deps.len()) + collecting::folded(
        s4.bindings,
        s4.bindings.len(),
    );
    let s5 = collecting::negated_wildcards(s4, known, stmts, deps, stmts.len());
    scope::lemma_negated_wildcards_gather(s4, known, stmts, deps, stmts.len());
    scope::lemma_scan_head_gathers(cx, s5, query.head, Occurs::none());
    lemma_scan_grows(cx, s5, query.head, Occurs::none());
    lemma_deps(cx, s3, claims, stmts, stmts.len());
    gathering::lemma_claimed(cx, s2, stmts, stmts.len());
    gathering::lemma_deps(cx, s3, claims, stmts, stmts.len());
    gathering::lemma_negated_wildcards(s4, known, stmts, deps, stmts.len());
    assert(s2.reports.len() == s3.reports.len() && s3.reports.len() == s4.reports.len());
    assert(collecting::claimed(cx, s2, stmts, stmts.len()) == (s3, claims));
    let after = collecting::collected(cx, st).0;
    assert(scope::within(after, 0));
    assert forall|i: int| 0 <= i < after.bindings.len() implies !((
    #[trigger] after.bindings[i]).1 is Key) by {
        assert(scope::slot_in(after.bindings[i].1, 0, 0));
    }
    let found = collecting::collected(cx, st).1;
    assert(found->0.stmts == stmts);
    assert(occurs_of(cx, s3, claims, found->0));
    assert(collecting::deps_of(cx, s3, claims, found->0.stmts, found->0.stmts.len()).0 == s4);
    (s3, claims, s5)
}

/// A head the scan accepted, in an order that is safe, is projected, unless something is
/// not there that typechecking looks for.
#[verifier::rlimit(30)]
pub proof fn lemma_accepted(cx: Cx, st: St, order: Seq<usize>)
    requires
        scope::within(st, 0),
        collecting::collected(cx, st).1 is Some,
        ({
            let (s1, found) = collecting::collected(cx, st);
            let gathered = found->0;
            let (s2, emitted) = emitting::emitted_stmts(
                cx,
                s1,
                gathered.stmts,
                order,
                order.len(),
            );
            let s4 = emitting::before_the_head(cx, s2, emitted->0).0;
            &&& emitting::safety(cx, s1, gathered, order).safe
            &&& emitted is Some
            &&& scope::clean(s1, s4)
            &&& finds(cx, s4, cx.ast.root().head)
            &&& aliases_find(cx, s1, gathered.stmts, order)
        }),
    ensures
        ({
            let (s1, found) = collecting::collected(cx, st);
            let (s2, emitted) = emitting::emitted_stmts(
                cx,
                s1,
                found->0.stmts,
                order,
                order.len(),
            );
            emitting::projected(
                cx,
                emitting::before_the_head(cx, s2, emitted->0).0,
                cx.ast.root().head,
            ).1 is Some
        }),
{
    let head = cx.ast.root().head;
    let (s1, found) = collecting::collected(cx, st);
    let gathered = found->0;
    let (s2, emitted) = emitting::emitted_stmts(cx, s1, gathered.stmts, order, order.len());
    let b2 = emitted->0;
    let s4 = emitting::before_the_head(cx, s2, b2).0;
    let job = Job {
        w: empty_world(cx, s1),
        kinds: arbitrary(),
        st: s1,
        stmts: gathered.stmts,
        order,
    };
    job.lemma_since(order.len());
    lemma_finished(cx, s2, b2);
    let (from, claims, scanned) = lemma_collected(cx, st);
    scope::law_an_order_is_safe_iff_it_binds_before_it_reads(cx, s1, gathered, order);
    assert forall|j: int| 0 <= j < order.len() implies (#[trigger] order[j])
        < gathered.stmts.len() by {
        let one = gathered.deps[order[j] as int];
    }
    lemma_order(cx, s1, from, claims, gathered, order, order.len());
    let reads = gathered.head_reads;
    let occurs = collecting::scan_head(cx, scanned, head, Occurs::none()).1;
    assert forall|symbol: Symbol| #[trigger] occurs.reads.contains(symbol) implies model::lookup(
        s4.bindings,
        symbol,
    ) is Some by {
        let i = choose|i: int| 0 <= i < reads.len() && reads[i] == symbol;
        assert(scope::bound_after(s1, gathered, order, order.len()).contains(reads[i]));
        assert(model::lookup(s2.bindings, symbol) is Some);
    }
    lemma_projected(cx, s4, s4, head, scanned, Occurs::none());
}

/// Reports are only added until the head is projected.
pub proof fn lemma_emitted_grows(cx: Cx, st: St, stmts: Seq<Stmt>, order: Seq<usize>)
    ensures
        ({
            let (s1, emitted) = emitting::emitted_stmts(cx, st, stmts, order, order.len());
            scope::further(st, emitting::before_the_head(cx, s1, emitted->0).0)
        }),
{
    let (s1, emitted) = emitting::emitted_stmts(cx, st, stmts, order, order.len());
    let job = Job {
            w: empty_world(cx, st),
            kinds: arbitrary(),
            st,
            stmts,
            order,
        };
    job.lemma_since(order.len());
    lemma_finished(cx, s1, emitted->0);
}

/// What is added between the statements and the head binds nothing.
proof fn lemma_finished(cx: Cx, st: St, built: Built)
    ensures
        ({
            let after = emitting::before_the_head(cx, st, built).0;
            &&& after.bindings == st.bindings
            &&& after.hoisted == st.hoisted
            &&& after.names == st.names
            &&& scope::further(st, after)
        }),
{
    let head = cx.ast.root().head;
    let (s2, b2) = emitting::fetch_within(cx, st, built, head);
    lemma_fetch_alike(cx, st, built, head);
    running::lemma_fetch_more(cx, st, built, head);
    let bare = St { compares: Seq::empty(), ..s2 };
    laws::lemma_compared_alike(cx, bare, b2, s2.compares, s2.compares.len());
    finishing::lemma_compared_grow(cx, bare, b2, s2.compares, s2.compares.len());
    let (s3, b3) = emitting::compared_all(cx, bare, b2, s2.compares, s2.compares.len());
    let free = St { constraints: Seq::empty(), ..s3 };
    laws::lemma_constrained_alike(cx, free, b3, s3.constraints, s3.constraints.len());
    finishing::lemma_constrained_grow(
        cx,
        free,
        b3,
        s3.constraints,
        0,
        s3.constraints.len(),
    );
}

} // verus!
