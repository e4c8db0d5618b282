//! What a flattened query is fair for: what its order reads is bound, each place at its type.
use vstd::prelude::*;

use super::answering;
use super::answering::Job;
use super::collecting;
use super::collecting::{Claimed, Gathered, Occurs};
use super::emitting;
use super::emitting::Built;
use super::gathering;
use super::heads;
use super::matching;
use super::model;
use super::model::{Alias, Alt, Cx, Gen, Slot, St, Stmt};
use super::running;
use super::scope;
use crate::plan::Route;
use crate::reading;
use crate::reading::typing;
use crate::reading::typing::{Form, Kind, Kinds};
use crate::reading::World;
use crate::schema::{NameKey, PredicateTy, Symbol};
use crate::syntax;
use crate::syntax::{ExprKind, FieldRef, NodeId};

verus! {

// ---- what a walk sees -------------------------------------------------------

/// A variable was captured or read.
pub open spec fn seen(occurs: Occurs, symbol: Symbol) -> bool {
    occurs.captures.contains(symbol) || occurs.reads.contains(symbol)
}

proof fn lemma_capture(occurs: Occurs, var: Symbol, symbol: Symbol)
    ensures
        seen(occurs, symbol) ==> seen(occurs.capture(var), symbol),
        seen(occurs.capture(var), var),
{
    let after = occurs.capture(var);
    if !occurs.captures.contains(var) {
        assert(after.captures[after.captures.len() - 1] == var);
        if occurs.captures.contains(symbol) {
            let i = choose|i: int| 0 <= i < occurs.captures.len() && occurs.captures[i] == symbol;
            assert(after.captures[i] == symbol);
        }
    }
}

proof fn lemma_read(occurs: Occurs, var: Symbol, symbol: Symbol)
    ensures
        seen(occurs, symbol) ==> seen(occurs.read(var), symbol),
        occurs.reads.contains(symbol) ==> occurs.read(var).reads.contains(symbol),
        occurs.read(var).reads.contains(var),
        occurs.read(var).captures == occurs.captures,
{
    let after = occurs.read(var);
    if !occurs.reads.contains(var) {
        assert(after.reads[after.reads.len() - 1] == var);
        if occurs.reads.contains(symbol) {
            let i = choose|i: int| 0 <= i < occurs.reads.len() && occurs.reads[i] == symbol;
            assert(after.reads[i] == symbol);
        }
    }
}

proof fn lemma_scan_read(cx: Cx, st: St, node: NodeId, occurs: Occurs, symbol: Symbol)
    ensures
        seen(occurs, symbol) ==> seen(collecting::scan_read(cx, st, node, occurs), symbol),
        occurs.reads.contains(symbol) ==> collecting::scan_read(
            cx,
            st,
            node,
            occurs,
        ).reads.contains(symbol),
{
    let root = model::chain_root(cx, node);
    match cx.ast.kind(root) {
        ExprKind::Var(var) => lemma_read(occurs, var, symbol),
        ExprKind::Fact(_, _) => if let Some(row) = model::hoisted_row(st.hoisted, root) {
            lemma_read(occurs, row, symbol);
        },
        _ => {},
    }
}

/// What a pattern can take, a walk of it sees.
proof fn lemma_field_seen(
    w: World,
    st: St,
    node: NodeId,
    ty: PredicateTy,
    path: Route,
    claims: Claimed,
    occurs: Occurs,
    symbol: Symbol,
)
    ensures
        ({
            let after = collecting::scan_field(w.cx, st, node, ty, claims, occurs).1;
            &&& seen(occurs, symbol) ==> seen(after, symbol)
            &&& reading::taken_in(
                reading::takes(w, typing::nothing(), node, ty, path),
                symbol,
            ) ==> seen(after, symbol)
        }),
    decreases node.0, 1nat, 0nat,
{
    let taken = reading::takes(w, typing::nothing(), node, ty, path);
    match w.cx.ast.kind(node) {
        ExprKind::Var(var) => {
            lemma_capture(occurs, var, symbol);
            lemma_read(occurs, var, symbol);
            if reading::taken_in(taken, symbol) {
                let j = choose|j: int| 0 <= j < taken.len() && (#[trigger] taken[j]).0 == symbol;
                assert(taken[j].0 == var);
            }
        },
        ExprKind::Record(fields) => if let PredicateTy::Record(tys) = ty {
            lemma_fields_seen(
                w,
                st,
                node,
                fields@,
                tys@,
                tys@.len(),
                path,
                claims,
                occurs,
                symbol,
            );
        },
        ExprKind::Access(FieldRef::Key(_), _) => lemma_scan_read(w.cx, st, node, occurs, symbol),
        ExprKind::Select(_, _) => lemma_scan_read(w.cx, st, node, occurs, symbol),
        ExprKind::Fact(_, _) => if let Some(row) = model::hoisted_row(st.hoisted, node) {
            lemma_read(occurs, row, symbol);
        },
        _ => {},
    }
}

proof fn lemma_either(
    a: Seq<(Symbol, reading::Place)>,
    b: Seq<(Symbol, reading::Place)>,
    symbol: Symbol,
)
    requires
        reading::taken_in(a + b, symbol),
    ensures
        reading::taken_in(a, symbol) || reading::taken_in(b, symbol),
{
    let all = a + b;
    let j = choose|j: int| 0 <= j < all.len() && (#[trigger] all[j]).0 == symbol;
    if j < a.len() {
        assert(a[j].0 == symbol);
    } else {
        assert(b[j - a.len()].0 == symbol);
    }
}

#[verifier::rlimit(30)]
proof fn lemma_fields_seen(
    w: World,
    st: St,
    node: NodeId,
    fields: Seq<(Symbol, NodeId)>,
    tys: Seq<(NameKey, PredicateTy)>,
    k: nat,
    path: Route,
    claims: Claimed,
    occurs: Occurs,
    symbol: Symbol,
)
    ensures
        ({
            let after = collecting::scan_fields(
                w.cx,
                st,
                node,
                fields,
                tys,
                k,
                claims,
                occurs,
            ).1;
            &&& seen(occurs, symbol) ==> seen(after, symbol)
            &&& reading::taken_in(
                reading::takes_fields(w, typing::nothing(), node, fields, tys, k, path),
                symbol,
            ) ==> seen(after, symbol)
        }),
    decreases node.0, 0nat, k,
{
    if k > 0 {
        let j = (k - 1) as nat;
        lemma_fields_seen(w, st, node, fields, tys, j, path, claims, occurs, symbol);
        let (s1, o1) = collecting::scan_fields(
            w.cx,
            st,
            node,
            fields,
            tys,
            j,
            claims,
            occurs,
        );
        let before = reading::takes_fields(w, typing::nothing(), node, fields, tys, j, path);
        let all = reading::takes_fields(w, typing::nothing(), node, fields, tys, k, path);
        let deeper = Route::of(path.top(), path.inner().push((k - 1) as usize));
        match model::field_pattern(fields, Symbol::Schema(tys[k - 1].0)) {
            Some(piece) => {
                if piece.0 < node.0 {
                    lemma_field_seen(
                        w,
                        s1,
                        piece,
                        tys[k - 1].1,
                        deeper,
                        claims,
                        o1,
                        symbol,
                    );
                }
                if reading::taken_in(all, symbol) {
                    if model::below(w.cx, node, piece) {
                        lemma_either(
                            before,
                            reading::takes(w, typing::nothing(), piece, tys[k - 1].1, deeper),
                            symbol,
                        );
                    } else {
                        assert(all =~= before);
                    }
                }
            },
            None => {
                assert(all =~= before);
            },
        }
    } else {
        assert(reading::takes_fields(w, typing::nothing(), node, fields, tys, 0, path).len() == 0);
    }
}

#[verifier::rlimit(30)]
proof fn lemma_top_seen(
    w: World,
    st: St,
    node: NodeId,
    fields: Seq<(Symbol, NodeId)>,
    tys: Seq<(NameKey, PredicateTy)>,
    k: nat,
    claims: Claimed,
    occurs: Occurs,
    symbol: Symbol,
)
    requires
        forall|i: int| 0 <= i < fields.len() ==> (#[trigger] fields[i]).1.0 < node.0,
    ensures
        ({
            let after = collecting::scan_fields(
                w.cx,
                st,
                node,
                fields,
                tys,
                k,
                claims,
                occurs,
            ).1;
            &&& seen(occurs, symbol) ==> seen(after, symbol)
            &&& reading::taken_in(
                reading::takes_top(w, typing::nothing(), fields, tys, k),
                symbol,
            ) ==> seen(after, symbol)
        }),
    decreases k,
{
    if k > 0 {
        let j = (k - 1) as nat;
        lemma_top_seen(w, st, node, fields, tys, j, claims, occurs, symbol);
        let (s1, o1) = collecting::scan_fields(
            w.cx,
            st,
            node,
            fields,
            tys,
            j,
            claims,
            occurs,
        );
        let before = reading::takes_top(w, typing::nothing(), fields, tys, j);
        let all = reading::takes_top(w, typing::nothing(), fields, tys, k);
        let name = Symbol::Schema(tys[k - 1].0);
        let deeper = Route::of((k - 1) as usize, Seq::empty());
        match model::field_pattern(fields, name) {
            Some(piece) => {
                gathering::lemma_field_pattern(fields, name);
                let i = choose|i: int| 0 <= i < fields.len() && (#[trigger] fields[i]).1 == piece;
                assert(fields[i].1.0 < node.0);
                lemma_field_seen(w, s1, piece, tys[k - 1].1, deeper, claims, o1, symbol);
                if reading::taken_in(all, symbol) {
                    lemma_either(
                        before,
                        reading::takes(w, typing::nothing(), piece, tys[k - 1].1, deeper),
                        symbol,
                    );
                }
            },
            None => {
                assert(all =~= before);
            },
        }
    } else {
        assert(reading::takes_top(w, typing::nothing(), fields, tys, 0).len() == 0);
    }
}

proof fn lemma_key_seen(
    w: World,
    st: St,
    alt: Alt,
    claims: Claimed,
    occurs: Occurs,
    symbol: Symbol,
)
    requires
        w.cx.ast.wf(),
        w.cx.ast.has(alt.key),
        w.cx.schema.predicate(alt.predicate) is Some,
    ensures
        ({
            let after = collecting::scan_key(w.cx, st, alt, claims, occurs).1;
            &&& seen(occurs, symbol) ==> seen(after, symbol)
            &&& reading::taken_in(typing::occurring(w, alt), symbol) ==> seen(after, symbol)
        }),
{
    let ty = reading::key_of(w, alt);
    let node = alt.key;
    let taken = typing::occurring(w, alt);
    assert(syntax::children_below(w.cx.ast.tree().kinds()[node.0 as int], node.0 as nat));
    lemma_field_seen(
        w,
        st,
        node,
        ty,
        Route::of(0, Seq::empty()),
        claims,
        occurs,
        symbol,
    );
    match (ty, w.cx.ast.kind(node)) {
        (PredicateTy::Record(tys), ExprKind::Record(fields)) => {
            lemma_top_seen(
                w,
                st,
                node,
                fields@,
                tys@,
                tys@.len(),
                claims,
                occurs,
                symbol,
            );
        },
        (PredicateTy::Record(_), ExprKind::Var(var)) => {
            if reading::taken_in(taken, symbol) {
                let j = choose|j: int| 0 <= j < taken.len() && (#[trigger] taken[j]).0 == symbol;
                assert(taken[j].0 == var);
                lemma_capture(occurs, var, symbol);
                lemma_read(occurs, var, symbol);
            }
        },
        (PredicateTy::Record(_), _) => {
            assert(taken.len() == 0);
        },
        _ => {},
    }
}

/// What a negation can take, it reads.
proof fn lemma_alts_seen(
    w: World,
    st: St,
    claims: Claimed,
    alts: Seq<Alt>,
    k: nat,
    occurs: Occurs,
    symbol: Symbol,
)
    requires
        w.cx.ast.wf(),
        k <= alts.len(),
        forall|i: int|
            0 <= i < alts.len() ==> w.cx.ast.has((#[trigger] alts[i]).key)
                && w.cx.schema.predicate(alts[i].predicate) is Some,
    ensures
        ({
            let after = collecting::scan_alts(w.cx, st, claims, alts, k, occurs).1;
            &&& seen(occurs, symbol) ==> seen(after, symbol)
            &&& forall|i: int|
                0 <= i < k && reading::taken_in(
                    typing::occurring(w, #[trigger] alts[i]),
                    symbol,
                ) ==> seen(after, symbol)
        }),
    decreases k,
{
    if k > 0 {
        let j = (k - 1) as nat;
        lemma_alts_seen(w, st, claims, alts, j, occurs, symbol);
        let (s1, o1) = collecting::scan_alts(w.cx, st, claims, alts, j, occurs);
        lemma_key_seen(w, s1, alts[k - 1], claims, o1, symbol);
    }
}

pub proof fn lemma_read_all(occurs: Occurs, vars: Seq<Symbol>, k: nat, symbol: Symbol)
    requires
        k <= vars.len(),
    ensures
        occurs.reads.contains(symbol) || vars.take(k as int).contains(symbol) ==> occurs.read_all(
            vars,
            k,
        ).reads.contains(symbol),
    decreases k,
{
    if k > 0 {
        let j = (k - 1) as nat;
        lemma_read_all(occurs, vars, j, symbol);
        lemma_read(occurs.read_all(vars, j), vars[k - 1], symbol);
        if vars.take(k as int).contains(symbol) {
            let i = choose|i: int| 0 <= i < k && vars.take(k as int)[i] == symbol;
            if i < j {
                assert(vars.take(j as int)[i] == symbol);
            }
        }
    } else {
        assert(vars.take(0).len() == 0);
    }
}

/// The variables of a negation's patterns are among what it reads.
proof fn lemma_negation_reads(
    w: World,
    st: St,
    claims: Claimed,
    tested: Gen,
    i: int,
    symbol: Symbol,
)
    requires
        w.cx.ast.wf(),
        forall|j: int|
            0 <= j < tested.alternatives@.len() ==> w.cx.ast.has(
                (#[trigger] tested.alternatives@[j]).key,
            ) && w.cx.schema.predicate(tested.alternatives@[j].predicate) is Some,
        0 <= i < tested.alternatives@.len(),
        reading::taken_in(typing::occurring(w, tested.alternatives@[i]), symbol),
    ensures
        collecting::stmt_occurs(w.cx, st, claims, Stmt::Negate(tested)).1.reads.contains(symbol),
{
    let alts = tested.alternatives@;
    lemma_alts_seen(w, st, claims, alts, alts.len(), Occurs::none(), symbol);
    let all = collecting::scan_alts(w.cx, st, claims, alts, alts.len(), Occurs::none()).1;
    lemma_read_all(
        Occurs { captures: Seq::empty(), ..all },
        all.captures,
        all.captures.len(),
        symbol,
    );
    assert(all.captures.take(all.captures.len() as int) =~= all.captures);
}

// ---- places of their kinds --------------------------------------------------

/// A place is one a variable of a kind can have.
pub open spec fn slot_fits(slot: Slot, kind: Kind) -> bool {
    match slot {
        Slot::Row { predicate: Some(p), .. } => kind.ty == PredicateTy::Fact(p),
        Slot::Row { predicate: None, .. } => false,
        Slot::Key { ty, .. } => ty is Record && kind.ty == ty,
        Slot::Field { ty, .. } => kind.ty == ty,
        Slot::Value { .. } => kind.form is Value,
        Slot::Const(node) => kind.form == Form::Const(node),
    }
}

/// Every variable is bound to a place it can have.
pub open spec fn kinded(kinds: Kinds, bindings: Seq<(Symbol, Slot)>) -> bool {
    forall|i: int|
        0 <= i < bindings.len() ==> slot_fits((#[trigger] bindings[i]).1, kinds(bindings[i].0))
}

pub proof fn lemma_lookup(kinds: Kinds, bindings: Seq<(Symbol, Slot)>, symbol: Symbol)
    requires
        kinded(kinds, bindings),
    ensures
        model::lookup(bindings, symbol) matches Some(slot) ==> slot_fits(slot, kinds(symbol)),
    decreases bindings.len(),
{
    if bindings.len() > 0 {
        let shorter = bindings.drop_last();
        assert forall|i: int| 0 <= i < shorter.len() implies slot_fits(
            (#[trigger] shorter[i]).1,
            kinds(shorter[i].0),
        ) by {
            assert(shorter[i] == bindings[i]);
        }
        assert(bindings[bindings.len() - 1] == bindings.last());
        lemma_lookup(kinds, shorter, symbol);
    }
}

/// A field that is there is found, at a place of its kind.
proof fn lemma_piece_fits(
    w: World,
    st: St,
    node: NodeId,
    slot: Slot,
    name: Symbol,
    kind: Kind,
)
    requires
        slot_fits(slot, kind),
        typing::piece_kind(w, kind, name) is Some,
        scope::clean(st, model::field_slot(w.cx, st, node, slot, name).0),
    ensures
        model::field_slot(w.cx, st, node, slot, name).1 matches Some(place) && slot_fits(
            place,
            typing::piece_kind(w, kind, name)->0,
        ),
{
    matching::lemma_field_slot_only(w.cx, st, node, slot, name);
}

/// The variable an expression is rooted at is bound.
pub open spec fn rooted(cx: Cx, st: St, node: NodeId) -> bool {
    let root = model::chain_root(cx, node);
    match cx.ast.kind(root) {
        ExprKind::Var(symbol) => model::lookup(st.bindings, symbol) is Some,
        ExprKind::Fact(_, _) => model::hoisted_row(st.hoisted, root) matches Some(row)
            ==> model::lookup(st.bindings, row) is Some,
        _ => true,
    }
}

/// An expression of a kind, whose variable is bound, is somewhere.
proof fn lemma_resolves(w: World, kinds: Kinds, st: St, node: NodeId, kind: Kind)
    requires
        w.hoisted == st.hoisted,
        kinded(kinds, st.bindings),
        rooted(w.cx, st, node),
        typing::has_kind(w, kinds, node, kind),
        scope::clean(st, model::resolve(w.cx, st, node).0),
    ensures
        model::resolve(w.cx, st, node).1 matches Some(slot) && slot_fits(slot, kind),
    decreases node.0,
{
    if !w.cx.ast.constant(node) {
        match w.cx.ast.kind(node) {
            ExprKind::Var(symbol) => lemma_lookup(kinds, st.bindings, symbol),
            ExprKind::Fact(_, _) => {
                let row = model::hoisted_row(w.hoisted, node)->0;
                lemma_lookup(kinds, st.bindings, row);
            },
            ExprKind::Access(field, base) => {
                let (s1, found) = model::resolve(w.cx, st, base);
                matching::lemma_resolve_only(w.cx, st, base);
                if let Some(slot) = found {
                    matching::lemma_dereference_only(w.cx, s1, node, slot);
                    let (s2, place) = model::dereference(w.cx, s1, node, slot);
                    if let (FieldRef::Key(name), Some(inner)) = (field, place) {
                        matching::lemma_field_slot_only(w.cx, s2, node, inner, name);
                    }
                }
                match field {
                    FieldRef::Key(name) => {
                        let of = choose|of: Kind|
                            typing::has_kind(w, kinds, base, of)
                                && #[trigger] typing::piece_kind(w, of, name) == Some(kind);
                        lemma_resolves(w, kinds, st, base, of);
                        let (s2, place) = model::dereference(w.cx, s1, node, found->0);
                        lemma_piece_fits(w, s2, node, place->0, name, of);
                    },
                    FieldRef::Value => {
                        let of = choose|of: Kind|
                            typing::has_kind(w, kinds, base, of)
                                && #[trigger] typing::value_kind(w, of) == Some(kind);
                        lemma_resolves(w, kinds, st, base, of);
                    },
                }
            },
            _ => {},
        }
    }
}

proof fn lemma_kinded_push(
    kinds: Kinds,
    bindings: Seq<(Symbol, Slot)>,
    symbol: Symbol,
    slot: Slot,
)
    requires
        kinded(kinds, bindings),
        slot_fits(slot, kinds(symbol)),
    ensures
        kinded(kinds, bindings.push((symbol, slot))),
{
    let all = bindings.push((symbol, slot));
    assert forall|i: int| 0 <= i < all.len() implies slot_fits(
        (#[trigger] all[i]).1,
        kinds(all[i].0),
    ) by {
        if i < bindings.len() {
            assert(all[i] == bindings[i]);
        }
    }
}

/// A pattern names places of their kinds.
proof fn lemma_bind_kinded(
    w: World,
    kinds: Kinds,
    st: St,
    pattern: NodeId,
    slot: Slot,
    kind: Kind,
)
    requires
        kinded(kinds, st.bindings),
        slot_fits(slot, kind),
        typing::pattern_typed(w, kinds, pattern, kind),
        scope::clean(st, model::bind_pattern(w.cx, st, pattern, slot)),
    ensures
        kinded(kinds, model::bind_pattern(w.cx, st, pattern, slot).bindings),
    decreases pattern.0, 1nat, 0nat,
{
    match w.cx.ast.kind(pattern) {
        ExprKind::Var(symbol) => if model::lookup(st.bindings, symbol) is None {
            lemma_kinded_push(kinds, st.bindings, symbol, slot);
        },
        ExprKind::Record(fields) => lemma_pieces_kinded(
            w,
            kinds,
            st,
            pattern,
            slot,
            kind,
            fields@,
            fields@.len(),
        ),
        _ => {},
    }
}

proof fn lemma_pieces_kinded(
    w: World,
    kinds: Kinds,
    st: St,
    pattern: NodeId,
    slot: Slot,
    kind: Kind,
    fields: Seq<(Symbol, NodeId)>,
    k: nat,
)
    requires
        k <= fields.len(),
        kinded(kinds, st.bindings),
        slot_fits(slot, kind),
        forall|i: int|
            0 <= i < fields.len() ==> (#[trigger] fields[i]).1.0 < pattern.0 && (
            typing::piece_kind(w, kind, fields[i].0) matches Some(piece) && typing::pattern_typed(
                w,
                kinds,
                fields[i].1,
                piece,
            )),
        scope::clean(st, model::bind_pieces(w.cx, st, pattern, slot, fields, k)),
    ensures
        kinded(kinds, model::bind_pieces(w.cx, st, pattern, slot, fields, k).bindings),
    decreases pattern.0, 0nat, k,
{
    if k > 0 {
        let j = (k - 1) as nat;
        let s1 = model::bind_pieces(w.cx, st, pattern, slot, fields, j);
        let (name, piece) = fields[k - 1];
        let (s2, field) = model::field_slot(w.cx, s1, piece, slot, name);
        running::lemma_bind_pieces_only(w.cx, st, pattern, slot, fields, j);
        matching::lemma_field_slot_only(w.cx, s1, piece, slot, name);
        if let Some(place) = field {
            running::lemma_bind_only(w.cx, s2, piece, place);
        }
        lemma_pieces_kinded(w, kinds, st, pattern, slot, kind, fields, j);
        assert(fields[k - 1].1.0 < pattern.0);
        lemma_piece_fits(w, s1, piece, slot, name, kind);
        lemma_bind_kinded(
            w,
            kinds,
            s2,
            piece,
            field->0,
            typing::piece_kind(w, kind, name)->0,
        );
    }
}

// ---- one statement ----------------------------------------------------------

/// An alias whose variables are bound finds its value, and names places of their kinds.
pub proof fn lemma_alias(
    w: World,
    kinds: Kinds,
    stmts: Seq<Stmt>,
    st: St,
    built: Built,
    alias: Alias,
)
    requires
        w.hoisted == st.hoisted,
        kinded(kinds, st.bindings),
        typing::typed_stmt(w, kinds, stmts, Stmt::Alias(alias)),
        rooted(w.cx, st, alias.value),
        typing::compares(w, stmts, alias) ==> rooted(w.cx, st, alias.pattern),
        scope::clean(st, emitting::emitted_stmt(w.cx, st, built, Stmt::Alias(alias)).0),
    ensures
        heads::alias_finds(w.cx, st, built, alias),
        kinded(kinds, emitting::emitted_stmt(w.cx, st, built, Stmt::Alias(alias)).0.bindings),
{
    let cx = w.cx;
    let (s1, b1) = emitting::fetch_within(cx, st, built, alias.value);
    let (s2, b2) = emitting::fetch_within(cx, s1, b1, alias.pattern);
    let (s3, found) = model::resolve(cx, s2, alias.value);
    heads::lemma_fetch_alike(cx, st, built, alias.value);
    heads::lemma_fetch_alike(cx, s1, b1, alias.pattern);
    running::lemma_fetch_more(cx, st, built, alias.value);
    running::lemma_fetch_more(cx, s1, b1, alias.pattern);
    matching::lemma_resolve_only(cx, s2, alias.value);
    if let Some(slot) = found {
        running::lemma_bind_only(cx, s3, alias.pattern, slot);
    }
    let kind = choose|kind: Kind| #[trigger]
        typing::has_kind(w, kinds, alias.value, kind) && (if typing::compares(w, stmts, alias) {
            kinds(cx.ast.kind(alias.pattern)->Var_0).ty == kind.ty
        } else {
            typing::pattern_typed(w, kinds, alias.pattern, kind)
        });
    lemma_resolves(w, kinds, s2, alias.value, kind);
    let slot = found->0;
    if !typing::compares(w, stmts, alias) {
        lemma_bind_kinded(w, kinds, s3, alias.pattern, slot, kind);
    }
}

/// A scan binds places of their kinds.
proof fn lemma_scan(w: World, kinds: Kinds, stmts: Seq<Stmt>, st: St, built: Built, scan: Gen)
    requires
        kinded(kinds, st.bindings),
        heads::records(st.bindings),
        scan.alternatives@.len() > 0,
        typing::typed_stmt(w, kinds, stmts, Stmt::Scan(scan)),
        emitting::emitted_stmt(w.cx, st, built, Stmt::Scan(scan)).1 is Some,
        scope::clean(st, emitting::emitted_stmt(w.cx, st, built, Stmt::Scan(scan)).0),
    ensures
        kinded(kinds, emitting::emitted_stmt(w.cx, st, built, Stmt::Scan(scan)).0.bindings),
{
    let cx = w.cx;
    let after = emitting::emitted_stmt(cx, st, built, Stmt::Scan(scan)).0;
    let alts = scan.alternatives@;
    let sense = matching::sense_of(st.bindings, Seq::empty());
    running::lemma_senses(st.bindings, Seq::empty());
    let (s1, b1) = emitting::fetch_alts(cx, st, built, alts, alts.len());
    let here = b1.next();
    heads::lemma_fetch_alts_alike(cx, st, built, alts, alts.len());
    running::lemma_fetch_more_alts(cx, st, built, alts, alts.len());
    running::lemma_scan_sources_grow(cx, s1, alts, alts.len(), here, s1.bindings.len());
    running::lemma_scan_sources(w, sense, s1, alts, alts.len(), here);
    let taken = reading::bindings(w, sense, scan);
    let slots = matching::slots_at(here, taken);
    let both = st.bindings + slots;
    assert(kinded(kinds, both)) by {
        assert forall|i: int| 0 <= i < both.len() implies slot_fits(
            (#[trigger] both[i]).1,
            kinds(both[i].0),
        ) by {
            if i < st.bindings.len() {
                assert(both[i] == st.bindings[i]);
            } else {
                let j = i - st.bindings.len();
                assert(both[i] == slots[j]);
                typing::lemma_shared_first(w, sense, alts, alts.len(), j);
                let ty = reading::key_of(w, alts[0]);
                let first = reading::takes_key(w, sense, alts[0].key, ty);
                let x = choose|x: int| 0 <= x < first.len() && first[x] == taken[j];
                typing::lemma_occurs(w, sense, alts[0], x);
                let all = typing::occurring(w, alts[0]);
                let p = choose|p: int| 0 <= p < all.len() && all[p] == first[x];
                assert(typing::typed_alt(w, kinds, alts[0]));
                assert(typing::fits(kinds(all[p].0), all[p].1));
                heads::lemma_takes_records(w, sense, alts[0].key, ty, here);
                assert(matching::slots_at(here, first)[x] == slots[j]);
            }
        }
    }
    if let Some(row) = scan.row {
        assert(typing::typed_alt(w, kinds, alts[0]));
        lemma_kinded_push(
            kinds,
            both,
            row,
            Slot::Row { address: here, predicate: Some(alts[0].predicate) },
        );
    }
}

// ---- an order ---------------------------------------------------------------

/// Every read of a statement is bound: the roots of what an alias names are.
pub proof fn lemma_roots(
    cx: Cx,
    st: St,
    scanned: St,
    claims: Claimed,
    alias: Alias,
)
    requires
        scanned.hoisted == st.hoisted,
        forall|symbol: Symbol|
            collecting::stmt_occurs(cx, scanned, claims, Stmt::Alias(alias)).1.reads.contains(
                symbol,
            ) ==> (#[trigger] model::lookup(st.bindings, symbol)) is Some,
    ensures
        rooted(cx, st, alias.value),
        collecting::is_compare(cx, alias, claims.capturable) ==> rooted(cx, st, alias.pattern),
{
    let vars = model::bare_variables(cx, alias.pattern);
    let left = if collecting::is_compare(cx, alias, claims.capturable) {
        collecting::scan_read(cx, scanned, alias.pattern, Occurs::none())
    } else {
        Occurs::none().capture_all(vars, vars.len())
    };
    let root = model::chain_root(cx, alias.value);
    match cx.ast.kind(root) {
        ExprKind::Var(symbol) => lemma_read(left, symbol, symbol),
        ExprKind::Fact(_, _) => if let Some(row) = model::hoisted_row(st.hoisted, root) {
            lemma_read(left, row, row);
        },
        _ => {},
    }
    if collecting::is_compare(cx, alias, claims.capturable) {
        let symbol = cx.ast.kind(alias.pattern)->Var_0;
        lemma_read(Occurs::none(), symbol, symbol);
        lemma_scan_read(cx, scanned, alias.value, left, symbol);
    }
}

/// What an order is emitted from.
pub open spec fn emitting_from(
    w: World,
    kinds: Kinds,
    st: St,
    from: St,
    claims: Claimed,
    gathered: Gathered,
    order: Seq<usize>,
) -> bool {
    &&& w.cx.ast.wf()
    &&& w.hoisted == st.hoisted
    &&& heads::records(st.bindings)
    &&& kinded(kinds, st.bindings)
    &&& heads::occurs_of(w.cx, from, claims, gathered)
    &&& from.hoisted == st.hoisted
    &&& claims.capturable == collecting::capturable(
        w.cx,
        gathered.stmts,
        gathered.stmts.len(),
    )
    &&& forall|i: int|
        0 <= i < gathered.stmts.len() ==> typing::typed_stmt(
            w,
            kinds,
            gathered.stmts,
            #[trigger] gathered.stmts[i],
        )
    &&& gathered.deps.len() == gathered.stmts.len()
    &&& scope::reads_bound(st, gathered, order, order.len())
    &&& forall|j: int| 0 <= j < order.len() ==> (#[trigger] order[j]) < gathered.stmts.len()
}

/// What is bound by the safety check's account has a place of its kind, until a statement
/// ranges over nothing.
#[verifier::rlimit(30)]
pub proof fn lemma_order(
    w: World,
    kinds: Kinds,
    st: St,
    from: St,
    claims: Claimed,
    gathered: Gathered,
    order: Seq<usize>,
    k: nat,
)
    requires
        emitting_from(w, kinds, st, from, claims, gathered, order),
        k <= order.len(),
        !answering::dead(gathered.stmts, order, k),
        emitting::emitted_stmts(w.cx, st, gathered.stmts, order, k).1 is Some,
        scope::clean(st, emitting::emitted_stmts(w.cx, st, gathered.stmts, order, k).0),
    ensures
        ({
            let after = emitting::emitted_stmts(w.cx, st, gathered.stmts, order, k).0;
            &&& heads::records(after.bindings)
            &&& heads::keeps(st, after)
            &&& kinded(kinds, after.bindings)
            &&& forall|symbol: Symbol|
                scope::bound_after(st, gathered, order, k).contains(symbol) ==> (
                #[trigger] model::lookup(after.bindings, symbol)) is Some
        }),
    decreases k,
{
    let cx = w.cx;
    let stmts = gathered.stmts;
    let after = emitting::emitted_stmts(cx, st, stmts, order, k).0;
    if k == 0 {
        assert forall|symbol: Symbol|
            scope::bound_after(st, gathered, order, k).contains(symbol) implies (
        #[trigger] model::lookup(after.bindings, symbol)) is Some by {
            heads::lemma_folded(st.bindings, st.bindings.len(), symbol);
        }
    } else {
        let j = (k - 1) as nat;
        let (s1, before) = emitting::emitted_stmts(cx, st, stmts, order, j);
        let i = order[k - 1] as int;
        let job = Job { w, kinds, st, stmts, order };
        job.lemma_since(j);
        assert(order[j as int] < stmts.len());
        running::lemma_stmt_more(cx, s1, before->0, stmts[i]);
        assert(!answering::dead(stmts, order, j)) by {
            if answering::dead(stmts, order, j) {
                let x = choose|x: int|
                    0 <= x < j && (stmts[#[trigger] order[x] as int] matches Stmt::Scan(scan)
                        && scan.alternatives@.len() == 0);
                assert(stmts[order[x] as int] is Scan);
            }
        }
        lemma_order(w, kinds, st, from, claims, gathered, order, j);
        let scanned = collecting::deps_of(cx, from, claims, stmts, i as nat).0;
        gathering::lemma_deps(cx, from, claims, stmts, i as nat);
        assert(typing::typed_stmt(w, kinds, stmts, stmts[i]));
        lemma_reads(w, kinds, st, from, claims, gathered, order, j);
        match stmts[i] {
            Stmt::Alias(alias) => {
                lemma_roots(cx, s1, scanned, claims, alias);
                lemma_alias(w, kinds, stmts, s1, before->0, alias);
            },
            Stmt::Scan(scan) => {
                assert(stmts[order[k - 1] as int] is Scan);
                lemma_scan(w, kinds, stmts, s1, before->0, scan);
            },
            Stmt::Negate(tested) => {
                let alts = tested.alternatives@;
                let here = before->0.next();
                running::lemma_test_sources_grow(cx, s1, alts, alts.len(), here);
                running::lemma_tested(w, s1, alts, alts.len(), here);
                assert(after.bindings =~= s1.bindings);
            },
            Stmt::Constrain(_) => {},
        }
        heads::lemma_stmt(cx, s1, before->0, stmts[i], scanned, claims);
        let own = gathered.deps[i].captures@;
        assert forall|symbol: Symbol|
            scope::bound_after(st, gathered, order, k).contains(symbol) implies (
        #[trigger] model::lookup(after.bindings, symbol)) is Some by {
            let earlier = scope::bound_after(st, gathered, order, j);
            heads::lemma_in_either(earlier, own, symbol);
            if earlier.contains(symbol) {
                assert(model::lookup(s1.bindings, symbol) is Some);
            }
        }
    }
}

/// What the next statement reads is bound.
pub proof fn lemma_reads(
    w: World,
    kinds: Kinds,
    st: St,
    from: St,
    claims: Claimed,
    gathered: Gathered,
    order: Seq<usize>,
    k: nat,
)
    requires
        emitting_from(w, kinds, st, from, claims, gathered, order),
        k < order.len(),
        ({
            let after = emitting::emitted_stmts(w.cx, st, gathered.stmts, order, k).0;
            forall|symbol: Symbol|
                scope::bound_after(st, gathered, order, k).contains(symbol) ==> (
                #[trigger] model::lookup(after.bindings, symbol)) is Some
        }),
    ensures
        ({
            let after = emitting::emitted_stmts(w.cx, st, gathered.stmts, order, k).0;
            let i = order[k as int] as int;
            let scanned = collecting::deps_of(w.cx, from, claims, gathered.stmts, i as nat).0;
            forall|symbol: Symbol|
                collecting::stmt_occurs(
                    w.cx,
                    scanned,
                    claims,
                    gathered.stmts[i],
                ).1.reads.contains(symbol) ==> (#[trigger] model::lookup(
                    after.bindings,
                    symbol,
                )) is Some
        }),
{
    let after = emitting::emitted_stmts(w.cx, st, gathered.stmts, order, k).0;
    let i = order[k as int] as int;
    let scanned = collecting::deps_of(w.cx, from, claims, gathered.stmts, i as nat).0;
    let reads = gathered.deps[i].reads@;
    assert(order[k as int] < gathered.stmts.len());
    assert forall|symbol: Symbol|
        collecting::stmt_occurs(w.cx, scanned, claims, gathered.stmts[i]).1.reads.contains(
            symbol,
        ) implies (#[trigger] model::lookup(after.bindings, symbol)) is Some by {
        let x = choose|x: int| 0 <= x < reads.len() && reads[x] == symbol;
        assert(scope::bound_after(st, gathered, order, k).contains(reads[x]));
    }
}

/// A negation of an order names only what is bound.
pub proof fn lemma_negation(
    w: World,
    kinds: Kinds,
    st: St,
    from: St,
    claims: Claimed,
    gathered: Gathered,
    order: Seq<usize>,
    k: nat,
    tested: Gen,
)
    requires
        emitting_from(w, kinds, st, from, claims, gathered, order),
        k < order.len(),
        !answering::dead(gathered.stmts, order, k),
        emitting::emitted_stmts(w.cx, st, gathered.stmts, order, k).1 is Some,
        scope::clean(st, emitting::emitted_stmts(w.cx, st, gathered.stmts, order, k).0),
        gathered.stmts[order[k as int] as int] == Stmt::Negate(tested),
        running::present(w, tested.alternatives@),
    ensures
        running::all_bound(
            w,
            emitting::emitted_stmts(w.cx, st, gathered.stmts, order, k).0.bindings,
            tested.alternatives@,
        ),
{
    let alts = tested.alternatives@;
    let after = emitting::emitted_stmts(w.cx, st, gathered.stmts, order, k).0;
    let at = order[k as int] as int;
    lemma_order(w, kinds, st, from, claims, gathered, order, k);
    lemma_reads(w, kinds, st, from, claims, gathered, order, k);
    assert(order[k as int] < gathered.stmts.len());
    assert(typing::typed_stmt(w, kinds, gathered.stmts, gathered.stmts[at]));
    let scanned = collecting::deps_of(w.cx, from, claims, gathered.stmts, at as nat).0;
    assert forall|i: int, symbol: Symbol|
        #![trigger alts[i], model::lookup(after.bindings, symbol)]
        0 <= i < alts.len() && reading::taken_in(typing::occurring(w, alts[i]), symbol) implies
        model::lookup(after.bindings, symbol) is Some by {
        assert forall|j: int| 0 <= j < alts.len() implies w.cx.ast.has(
            (#[trigger] alts[j]).key,
        ) && w.cx.schema.predicate(alts[j].predicate) is Some by {
            assert(typing::typed_alt(w, kinds, alts[j]));
        }
        lemma_negation_reads(w, scanned, claims, tested, i, symbol);
    }
}

} // verus!
