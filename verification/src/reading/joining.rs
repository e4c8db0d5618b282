//! The order of a body's statements is no part of what they mean.
use vstd::prelude::*;

use super::likeness;
use super::orders;
use super::orders::{Choice, Choices};
use super::typing;
use super::typing::{Form, Kind, Kinds};
use super::{Found, Place, Sense, Thing, World};
use crate::error::ApertureError;
use crate::flatten::heads;
use crate::flatten::matching;
use crate::flatten::model;
use crate::flatten::model::{Alias, Alt, Gen, Stmt};
use crate::flatten::running;
use crate::flatten::taking;
use crate::layout;
use crate::plan::{Fact, Route};
use crate::reading;
use crate::reorder;
use crate::schema::{PredicateId, PredicateTy, Symbol};
use crate::syntax::{ExprKind, FieldRef, NodeId};
use crate::tuple;
use crate::tuple::Datum;

verus! {

// ---- what turns only on which variables stand for something -----------------

/// Two senses have the same variables.
pub open spec fn same_vars(a: Sense, b: Sense) -> bool {
    forall|symbol: Symbol| (#[trigger] a(symbol)) is Some == b(symbol) is Some
}

proof fn lemma_known_more(w: World, less: Sense, more: Sense, node: NodeId)
    requires
        typing::covers(less, more),
        likeness::known(w, less, node),
    ensures
        likeness::known(w, more, node),
    decreases node.0,
{
    match w.cx.ast.kind(node) {
        ExprKind::Var(symbol) => {
            assert(less(symbol) is Some);
        },
        ExprKind::Fact(_, _) => {
            if let Some(row) = model::hoisted_row(w.hoisted, node) {
                assert(less(row) is Some);
            }
        },
        ExprKind::Access(_, base) => {
            if base.0 < node.0 {
                lemma_known_more(w, less, more, base);
            }
        },
        _ => {},
    }
}

proof fn lemma_covered_more(w: World, less: Sense, more: Sense, node: NodeId, ty: PredicateTy)
    requires
        typing::covers(less, more),
        likeness::covered(w, less, node, ty),
    ensures
        likeness::covered(w, more, node, ty),
    decreases node.0,
{
    match w.cx.ast.kind(node) {
        ExprKind::Var(_) => {},
        ExprKind::Record(fields) => {
            if let PredicateTy::Record(tys) = ty {
                assert forall|i: int| 0 <= i < tys@.len() implies (model::field_pattern(
                    fields@,
                    Symbol::Schema((#[trigger] tys@[i]).0),
                ) matches Some(inner) ==> inner.0 < node.0 ==> likeness::covered(
                    w,
                    more,
                    inner,
                    tys@[i].1,
                )) by {
                    if let Some(inner) = model::field_pattern(
                        fields@,
                        Symbol::Schema(tys@[i].0),
                    ) {
                        if inner.0 < node.0 {
                            lemma_covered_more(w, less, more, inner, tys@[i].1);
                        }
                    }
                }
            }
        },
        _ => lemma_known_more(w, less, more, node),
    }
}

proof fn lemma_filter_all(taken: Seq<(Symbol, Place)>, p: spec_fn((Symbol, Place)) -> bool)
    requires
        forall|i: int| 0 <= i < taken.len() ==> p(#[trigger] taken[i]),
    ensures
        taken.filter(p) == taken,
    decreases taken.len(),
{
    reveal(Seq::filter);
    if taken.len() > 0 {
        let shorter = taken.drop_last();
        assert forall|i: int| 0 <= i < shorter.len() implies p(#[trigger] shorter[i]) by {
            assert(shorter[i] == taken[i]);
        }
        lemma_filter_all(shorter, p);
        assert(p(taken[taken.len() - 1]));
        assert(shorter.push(taken.last()) =~= taken);
    }
}

/// What a pattern takes turns only on which variables stand for something.
pub proof fn lemma_same_takes(w: World, a: Sense, b: Sense, alt: Alt)
    requires
        same_vars(a, b),
    ensures
        reading::takes_key(w, a, alt.key, reading::key_of(w, alt)) == reading::takes_key(
            w,
            b,
            alt.key,
            reading::key_of(w, alt),
        ),
{
    let ty = reading::key_of(w, alt);
    typing::lemma_takes_key_less(w, a, b, alt.key, ty);
    taking::lemma_key_fresh(w, a, alt.key, ty);
    let taken = reading::takes_key(w, a, alt.key, ty);
    assert forall|i: int| 0 <= i < taken.len() implies typing::missing(b)(#[trigger] taken[i]) by {
        assert(a(taken[i].0) is None);
    }
    lemma_filter_all(taken, typing::missing(b));
}

pub proof fn lemma_same_shared(w: World, a: Sense, b: Sense, alts: Seq<Alt>, k: nat)
    requires
        same_vars(a, b),
        k <= alts.len(),
    ensures
        reading::shared(w, a, alts, k) == reading::shared(w, b, alts, k),
    decreases k,
{
    if k > 0 {
        lemma_same_shared(w, a, b, alts, (k - 1) as nat);
        lemma_same_takes(w, a, b, alts[k - 1]);
    }
}

// ---- things that are there --------------------------------------------------

/// Something that is there: of a fact of the store, with a value of its type.
pub open spec fn is_there(w: World, thing: Thing) -> bool {
    &&& likeness::like(w, thing, thing)
    &&& match thing {
        Thing::Row { fact, .. } => running::stored(w, fact),
        Thing::Key { fact, .. } => running::stored(w, fact),
        Thing::Field { fact, .. } => running::stored(w, fact),
        _ => true,
    }
}

/// What something is of: its form and its type.
pub open spec fn is_kind(thing: Thing, kind: Kind) -> bool {
    match thing {
        Thing::Row { predicate: Some(p), .. } => kind.form is Row && kind.ty == PredicateTy::Fact(
            p,
        ),
        Thing::Row { predicate: None, .. } => false,
        Thing::Key { ty, .. } => kind.form is Key && kind.ty == ty && ty is Record,
        Thing::Field { ty, .. } => kind.form is Field && kind.ty == ty,
        Thing::Value { ty, .. } => kind.form is Value && kind.ty == ty,
        Thing::Const(node) => kind.form == Form::Const(node),
    }
}

/// Every variable stands for something that is there, of its kind.
pub open spec fn lively(w: World, kinds: Kinds, sense: Sense) -> bool {
    forall|symbol: Symbol|
        (#[trigger] sense(symbol)) matches Some(thing) ==> is_there(w, thing) && is_kind(
            thing,
            kinds(symbol),
        )
}

/// Facts are of the types their predicates declare, references lead somewhere, and a key has
/// no two fields of one name.
pub open spec fn footing(w: World) -> bool {
    &&& w.cx.ast.wf()
    &&& running::closed(w)
    &&& forall|fact: Fact, p: PredicateId|
        #![trigger w.facts.contains(fact), w.cx.schema.predicate(p)]
        w.facts.contains(fact) && reading::is_of(fact, p) ==> matching::of_predicate(
            w.cx,
            w.names,
            fact,
            p,
        )
    &&& forall|p: PredicateId|
        (#[trigger] w.cx.schema.predicate(p)) matches Some(declared) ==> likeness::named_once(
            declared.key,
        )
}

/// The kind of what a reference leads to.
pub open spec fn followed_kind(kind: Kind) -> Kind {
    if kind.form is Field && kind.ty is Fact {
        Kind { form: Form::Row, ty: kind.ty }
    } else {
        kind
    }
}

proof fn lemma_there_followed(w: World, thing: Thing, kind: Kind)
    requires
        running::closed(w),
        is_there(w, thing),
        is_kind(thing, kind),
        !(kind.form is Value && kind.ty is Fact),
    ensures
        reading::followed(w, thing) matches Some(place) && is_there(w, place) && is_kind(
            place,
            followed_kind(kind),
        ),
{
    if let Thing::Field { fact, path, ty: PredicateTy::Fact(predicate) } = thing {
        let d = choose|d: Datum|
            #[trigger] layout::holds_at(fact.key(), path, d) && layout::holds_at(
                fact.key(),
                path,
                d,
            ) && tuple::fits(w.names, d, PredicateTy::Fact(predicate));
        let id = d->FactRef_0;
        assert(layout::holds_at(fact.key(), path, Datum::FactRef(id)));
        matching::lemma_named(id, predicate);
        assert(tuple::path_bytes(fact.key(), path) == Ok::<Seq<u8>, ApertureError>(
            tuple::enc_fact(id),
        ));
        assert((w.keys)(id) is Some);
        assert(PredicateId(id.predicate_of() as u32) == predicate);
        likeness::lemma_like_followed(w, thing, thing);
    }
}

/// A piece of something that is there is there.
proof fn lemma_there_piece(w: World, thing: Thing, kind: Kind, name: Symbol)
    requires
        running::closed(w),
        is_there(w, thing),
        is_kind(thing, kind),
        typing::piece_kind(w, kind, name) is Some,
    ensures
        reading::piece(w, thing, name) matches Some(piece) && is_there(w, piece) && is_kind(
            piece,
            typing::piece_kind(w, kind, name)->0,
        ),
{
    likeness::lemma_like_piece(w, thing, thing, name);
    if let Thing::Field { ty: PredicateTy::Fact(_), .. } = thing {
        lemma_there_followed(w, thing, kind);
    }
}

/// An expression of a kind, all of whose variables stand for something, stands for something
/// of that kind.
proof fn lemma_stands(w: World, kinds: Kinds, sense: Sense, node: NodeId, kind: Kind)
    requires
        running::closed(w),
        lively(w, kinds, sense),
        likeness::known(w, sense, node),
        typing::has_kind(w, kinds, node, kind),
    ensures
        reading::thing_of(w, sense, node) matches Some(thing) && is_there(w, thing) && is_kind(
            thing,
            kind,
        ),
    decreases node.0,
{
    if !w.cx.ast.constant(node) {
        match w.cx.ast.kind(node) {
            ExprKind::Access(FieldRef::Key(name), base) => {
                let of = choose|of: Kind|
                    typing::has_kind(w, kinds, base, of) && #[trigger] typing::piece_kind(
                        w,
                        of,
                        name,
                    ) == Some(kind);
                lemma_stands(w, kinds, sense, base, of);
                let thing = reading::thing_of(w, sense, base)->0;
                lemma_there_followed(w, thing, of);
                let place = reading::followed(w, thing)->0;
                lemma_there_piece(w, place, followed_kind(of), name);
            },
            ExprKind::Access(FieldRef::Value, base) => {
                let of = choose|of: Kind|
                    typing::has_kind(w, kinds, base, of) && #[trigger] typing::value_kind(w, of)
                        == Some(kind);
                lemma_stands(w, kinds, sense, base, of);
                lemma_there_followed(w, reading::thing_of(w, sense, base)->0, of);
            },
            _ => {},
        }
    }
}

// ---- what a pattern names ---------------------------------------------------

/// Naming like things gives like things, each of the kind its variable has.
proof fn lemma_names(
    w: World,
    kinds: Kinds,
    f: Found,
    g: Found,
    pattern: NodeId,
    x: Thing,
    y: Thing,
    kind: Kind,
)
    requires
        running::closed(w),
        is_there(w, x),
        is_there(w, y),
        is_kind(x, kind),
        is_kind(y, kind),
        likeness::like(w, x, y),
        typing::pattern_typed(w, kinds, pattern, kind),
        model::bare_variables(w.cx, pattern).no_duplicates(),
        forall|symbol: Symbol|
            model::bare_variables(w.cx, pattern).contains(symbol) ==> (#[trigger] (f.sense)(
                symbol,
            )) is None && (g.sense)(symbol) is None,
    ensures
        named(
            w,
            kinds,
            f,
            g,
            reading::with_name(w, f, pattern, x),
            reading::with_name(w, g, pattern, y),
            model::bare_variables(w.cx, pattern),
        ),
    decreases pattern.0, 1nat, 0nat,
{
    let vars = model::bare_variables(w.cx, pattern);
    let (a, b) = (reading::with_name(w, f, pattern, x), reading::with_name(w, g, pattern, y));
    match w.cx.ast.kind(pattern) {
        ExprKind::Var(symbol) => {
            assert(vars[0] == symbol);
            assert(vars.contains(symbol));
            assert((f.sense)(symbol) is None);
            assert forall|other: Symbol| #[trigger] is_named(w, kinds, f, g, a, b, vars, other) by {
                if vars.contains(other) {
                    assert(other == symbol);
                }
            }
        },
        ExprKind::Record(fields) => lemma_names_pieces(
            w,
            kinds,
            f,
            g,
            pattern,
            x,
            y,
            kind,
            fields@,
            fields@.len(),
        ),
        _ => {
            assert forall|other: Symbol| #[trigger] is_named(w, kinds, f, g, a, b, vars, other) by {}
        },
    }
}

/// What naming some variables does to one variable.
pub open spec fn is_named(
    w: World,
    kinds: Kinds,
    f: Found,
    g: Found,
    a: Found,
    b: Found,
    vars: Seq<Symbol>,
    symbol: Symbol,
) -> bool {
    if vars.contains(symbol) {
        (a.sense)(symbol) matches Some(x) && (b.sense)(symbol) matches Some(y) && likeness::like(
            w,
            x,
            y,
        ) && is_there(w, x) && is_there(w, y) && is_kind(x, kinds(symbol)) && is_kind(
            y,
            kinds(symbol),
        )
    } else {
        (a.sense)(symbol) == (f.sense)(symbol) && (b.sense)(symbol) == (g.sense)(symbol)
    }
}

/// Some variables are given like things, and nothing else changes.
pub open spec fn named(
    w: World,
    kinds: Kinds,
    f: Found,
    g: Found,
    a: Found,
    b: Found,
    vars: Seq<Symbol>,
) -> bool {
    &&& a.pairs == f.pairs
    &&& b.pairs == g.pairs
    &&& forall|symbol: Symbol| #[trigger] is_named(w, kinds, f, g, a, b, vars, symbol)
}

#[verifier::rlimit(30)]
proof fn lemma_names_pieces(
    w: World,
    kinds: Kinds,
    f: Found,
    g: Found,
    pattern: NodeId,
    x: Thing,
    y: Thing,
    kind: Kind,
    fields: Seq<(Symbol, NodeId)>,
    k: nat,
)
    requires
        running::closed(w),
        is_there(w, x),
        is_there(w, y),
        is_kind(x, kind),
        is_kind(y, kind),
        likeness::like(w, x, y),
        k <= fields.len(),
        forall|i: int|
            0 <= i < fields.len() ==> (#[trigger] fields[i]).1.0 < pattern.0 && (
            typing::piece_kind(w, kind, fields[i].0) matches Some(piece) && typing::pattern_typed(
                w,
                kinds,
                fields[i].1,
                piece,
            )),
        model::bare_variables_of(w.cx, pattern, fields, k).no_duplicates(),
        forall|symbol: Symbol|
            model::bare_variables_of(w.cx, pattern, fields, k).contains(symbol) ==> (
            #[trigger] (f.sense)(symbol)) is None && (g.sense)(symbol) is None,
    ensures
        named(
            w,
            kinds,
            f,
            g,
            reading::with_pieces(w, f, pattern, x, fields, k),
            reading::with_pieces(w, g, pattern, y, fields, k),
            model::bare_variables_of(w.cx, pattern, fields, k),
        ),
    decreases pattern.0, 0nat, k,
{
    let vars = model::bare_variables_of(w.cx, pattern, fields, k);
    let (a, b) = (
        reading::with_pieces(w, f, pattern, x, fields, k),
        reading::with_pieces(w, g, pattern, y, fields, k),
    );
    if k == 0 {
        assert forall|other: Symbol| #[trigger] is_named(w, kinds, f, g, a, b, vars, other) by {}
    } else {
        let j = (k - 1) as nat;
        let before = model::bare_variables_of(w.cx, pattern, fields, j);
        let inner = fields[k - 1].1;
        assert(fields[k - 1].1.0 < pattern.0);
        let own = model::bare_variables(w.cx, inner);
        assert(vars =~= before + own);
        assert(before.no_duplicates()) by {
            assert forall|p: int, q: int|
                0 <= p < before.len() && 0 <= q < before.len() && p != q implies before[p]
                != before[q] by {
                assert(vars[p] == before[p] && vars[q] == before[q]);
            }
        }
        assert(own.no_duplicates()) by {
            assert forall|p: int, q: int|
                0 <= p < own.len() && 0 <= q < own.len() && p != q implies own[p] != own[q] by {
                assert(vars[before.len() + p] == own[p] && vars[before.len() + q] == own[q]);
            }
        }
        assert forall|symbol: Symbol| before.contains(symbol) implies (#[trigger] (f.sense)(
            symbol,
        )) is None && (g.sense)(symbol) is None by {
            let p = choose|p: int| 0 <= p < before.len() && before[p] == symbol;
            assert(vars[p] == symbol);
            assert(vars.contains(symbol));
        }
        lemma_names_pieces(w, kinds, f, g, pattern, x, y, kind, fields, j);
        let (f1, g1) = (
            reading::with_pieces(w, f, pattern, x, fields, j),
            reading::with_pieces(w, g, pattern, y, fields, j),
        );
        let name = fields[k - 1].0;
        lemma_there_piece(w, x, kind, name);
        lemma_there_piece(w, y, kind, name);
        likeness::lemma_like_piece(w, x, y, name);
        let (x1, y1) = (reading::piece(w, x, name)->0, reading::piece(w, y, name)->0);
        assert forall|symbol: Symbol| own.contains(symbol) implies (#[trigger] (f1.sense)(
            symbol,
        )) is None && (g1.sense)(symbol) is None by {
            let q = choose|q: int| 0 <= q < own.len() && own[q] == symbol;
            assert(vars[before.len() + q] == symbol);
            assert(vars.contains(symbol));
            assert((f.sense)(symbol) is None);
            assert(is_named(w, kinds, f, g, f1, g1, before, symbol));
            if before.contains(symbol) {
                let p = choose|p: int| 0 <= p < before.len() && before[p] == symbol;
                assert(vars[p] == symbol);
            }
        }
        lemma_names(
            w,
            kinds,
            f1,
            g1,
            inner,
            x1,
            y1,
            typing::piece_kind(w, kind, name)->0,
        );
        assert forall|symbol: Symbol| #[trigger] is_named(w, kinds, f, g, a, b, vars, symbol) by {
            assert(is_named(w, kinds, f, g, f1, g1, before, symbol));
            assert(is_named(w, kinds, f1, g1, a, b, own, symbol));
            if vars.contains(symbol) {
                let p = choose|p: int| 0 <= p < vars.len() && vars[p] == symbol;
                if p < before.len() {
                    assert(before[p] == symbol);
                } else {
                    assert(own[p - before.len()] == symbol);
                }
            }
            if before.contains(symbol) {
                let p = choose|p: int| 0 <= p < before.len() && before[p] == symbol;
                assert(vars[p] == symbol);
            }
            if own.contains(symbol) {
                let q = choose|q: int| 0 <= q < own.len() && own[q] == symbol;
                assert(vars[before.len() + q] == symbol);
            }
        }
    }
}

// ---- senses that are alike --------------------------------------------------

/// Two senses have the same variables, for like things.
pub open spec fn equal(w: World, a: Sense, b: Sense) -> bool {
    forall|symbol: Symbol| likeness::alike(w, #[trigger] a(symbol), b(symbol))
}

proof fn lemma_equal(w: World, a: Sense, b: Sense)
    requires
        equal(w, a, b),
    ensures
        likeness::within(w, a, b),
{
    assert forall|symbol: Symbol| (#[trigger] a(symbol)) is Some implies (b(
        symbol,
    ) matches Some(y) && likeness::like(w, a(symbol)->0, y)) by {
        assert(likeness::alike(w, a(symbol), b(symbol)));
    }
}

/// Everything a head reads stands for something.
pub open spec fn said(w: World, sense: Sense, node: NodeId) -> bool
    decreases node.0,
{
    match w.cx.ast.kind(node) {
        ExprKind::Record(fields) => forall|i: int|
            0 <= i < fields@.len() && (#[trigger] fields@[i]).1.0 < node.0 ==> said(
                w,
                sense,
                fields@[i].1,
            ),
        _ => likeness::known(w, sense, node),
    }
}

// ---- what is said of like things --------------------------------------------

proof fn lemma_like_value(w: World, x: Thing, y: Thing)
    requires
        likeness::like(w, x, y),
    ensures
        reading::thing_value(w, x) == reading::thing_value(w, y),
{
    match (x, y) {
        (
            Thing::Field { fact: a, path: p, ty },
            Thing::Field { fact: b, path: q, .. },
        ) => {
            let d = choose|d: Datum|
                #[trigger] layout::holds_at(a.key(), p, d) && layout::holds_at(b.key(), q, d)
                    && tuple::fits(w.names, d, ty);
            lemma_field_value(w, a, p, ty, d);
            lemma_field_value(w, b, q, ty, d);
        },
        (Thing::Key { fact: a, ty }, Thing::Key { fact: b, .. }) => {
            let d = choose|d: Datum|
                #[trigger] layout::key_is(w.names, a.key(), ty, d) && layout::key_is(
                    w.names,
                    b.key(),
                    ty,
                    d,
                );
            assert(a.key() == b.key());
        },
        _ => {},
    }
}

proof fn lemma_field_value(w: World, fact: Fact, path: Route, ty: PredicateTy, d: Datum)
    requires
        layout::holds_at(fact.key(), path, d),
        tuple::fits(w.names, d, ty),
    ensures
        reading::field_value(w, fact, path, ty) == Some(d),
{
    let e = choose|e: Datum|
        #[trigger] layout::holds_at(fact.key(), path, e) && tuple::fits(w.names, e, ty);
    assert(layout::holds_at(fact.key(), path, e) && tuple::fits(w.names, e, ty));
    assert(tuple::enc(e) == tuple::enc(d));
    matching::lemma_same_value(w.names, e, d, ty);
}

/// What like senses say.
proof fn lemma_equal_value(w: World, a: Sense, b: Sense, node: NodeId)
    requires
        footing(w),
        equal(w, a, b),
        said(w, a, node),
    ensures
        reading::value(w, a, node) == reading::value(w, b, node),
    decreases model::rank(w.cx, node), node.0, 1nat, 0nat,
{
    match w.cx.ast.kind(node) {
        ExprKind::Lit(_) => {},
        ExprKind::Record(fields) => lemma_equal_fields(
            w,
            a,
            b,
            node,
            fields@,
            fields@.len(),
        ),
        _ => {
            lemma_equal(w, a, b);
            likeness::lemma_thing_of(w, a, b, node);
            if let (Some(x), Some(y)) = (
                reading::thing_of(w, a, node),
                reading::thing_of(w, b, node),
            ) {
                lemma_like_value(w, x, y);
                if let Thing::Const(folded) = x {
                    if w.cx.ast.constant(folded) && !w.cx.ast.constant(node) {
                        lemma_constant_said(w, a, folded);
                        lemma_equal_value(w, a, b, folded);
                    }
                }
            }
        },
    }
}

proof fn lemma_equal_fields(
    w: World,
    a: Sense,
    b: Sense,
    node: NodeId,
    fields: Seq<(Symbol, NodeId)>,
    k: nat,
)
    requires
        footing(w),
        equal(w, a, b),
        k <= fields.len(),
        forall|i: int|
            0 <= i < fields.len() && (#[trigger] fields[i]).1.0 < node.0 ==> said(
                w,
                a,
                fields[i].1,
            ),
    ensures
        reading::value_fields(w, a, node, fields, k) == reading::value_fields(
            w,
            b,
            node,
            fields,
            k,
        ),
    decreases model::rank(w.cx, node), node.0, 0nat, k,
{
    if k > 0 {
        lemma_equal_fields(w, a, b, node, fields, (k - 1) as nat);
        if model::below(w.cx, node, fields[k - 1].1) {
            assert(said(w, a, fields[k - 1].1));
            lemma_equal_value(w, a, b, fields[k - 1].1);
        }
    }
}

proof fn lemma_constant_said(w: World, sense: Sense, node: NodeId)
    requires
        w.cx.ast.constant(node),
    ensures
        said(w, sense, node),
    decreases node.0,
{
    if let ExprKind::Record(fields) = w.cx.ast.kind(node) {
        assert forall|i: int|
            0 <= i < fields@.len() && (#[trigger] fields@[i]).1.0 < node.0 implies said(
            w,
            sense,
            fields@[i].1,
        ) by {
            lemma_constant_said(w, sense, fields@[i].1);
        }
    }
}

/// Every two things one variable was given for are the same.
pub open spec fn settled(pairs: Seq<(Thing, Thing)>) -> bool {
    forall|i: int|
        0 <= i < pairs.len() ==> reading::same((#[trigger] pairs[i]).0, pairs[i].1)
}

/// Like things are the same as like things.
proof fn lemma_like_same(w: World, x: Thing, y: Thing, p: Thing, q: Thing)
    requires
        likeness::like(w, x, p),
        likeness::like(w, y, q),
        !(x is Key),
        !(y is Key),
    ensures
        reading::same(x, y) == reading::same(p, q),
{
    lemma_like_bytes(w, x, p);
    lemma_like_bytes(w, y, q);
}

proof fn lemma_like_bytes(w: World, x: Thing, p: Thing)
    requires
        likeness::like(w, x, p),
    ensures
        x is Field == p is Field,
        x is Field ==> tuple::path_bytes(x->Field_fact.key(), x->Field_path) == tuple::path_bytes(
            p->Field_fact.key(),
            p->Field_path,
        ),
{
    if let (Thing::Field { fact: a, path, ty }, Thing::Field { fact: b, path: other, .. }) = (x, p) {
        let d = choose|d: Datum|
            #[trigger] layout::holds_at(a.key(), path, d) && layout::holds_at(b.key(), other, d)
                && tuple::fits(w.names, d, ty);
        assert(layout::holds_at(b.key(), other, d));
    }
}

proof fn lemma_equal_kept(w: World, a: Found, b: Found)
    requires
        equal(w, a.sense, b.sense),
        settled(a.pairs),
        settled(b.pairs),
    ensures
        reading::kept(w, a) == reading::kept(w, b),
{
    assert forall|i: int| 0 <= i < w.constraints.len() implies reading::satisfied(
        w,
        a.sense,
        (#[trigger] w.constraints[i]).0,
        w.constraints[i].1,
    ) == reading::satisfied(w, b.sense, w.constraints[i].0, w.constraints[i].1) by {
        let symbol = w.constraints[i].0;
        assert(likeness::alike(w, (a.sense)(symbol), (b.sense)(symbol)));
        if let (Some(Thing::Field { fact: f, path: p, ty }), Some(
            Thing::Field { fact: g, path: q, .. },
        )) = ((a.sense)(symbol), (b.sense)(symbol)) {
            let d = choose|d: Datum|
                #[trigger] layout::holds_at(f.key(), p, d) && layout::holds_at(g.key(), q, d)
                    && tuple::fits(w.names, d, ty);
            assert forall|e: Datum| layout::holds_at(f.key(), p, e) == layout::holds_at(
                g.key(),
                q,
                e,
            ) by {}
            if let ExprKind::Prefix(text) = w.cx.ast.kind(w.constraints[i].1) {
                if reading::satisfied(w, a.sense, symbol, w.constraints[i].1) {
                    let e = choose|e: Datum|
                        #[trigger] layout::holds_at(f.key(), p, e) && reading::begins(
                            w.names,
                            text,
                            e,
                        );
                    assert(layout::holds_at(g.key(), q, e));
                }
                if reading::satisfied(w, b.sense, symbol, w.constraints[i].1) {
                    let e = choose|e: Datum|
                        #[trigger] layout::holds_at(g.key(), q, e) && reading::begins(
                            w.names,
                            text,
                            e,
                        );
                    assert(layout::holds_at(f.key(), p, e));
                }
            }
        }
    }
}

// ---- what stands for something along an order -------------------------------

/// Every alternative of a scan names a variable.
pub open spec fn in_all(w: World, alts: Seq<Alt>, symbol: Symbol) -> bool {
    alts.len() > 0 && forall|i: int|
        0 <= i < alts.len() ==> reading::taken_in(
            typing::occurring(w, #[trigger] alts[i]),
            symbol,
        )
}

/// What a statement leaves standing for something: its row and what every alternative names,
/// or what an alias names.
pub open spec fn leaves(w: World, stmt: Stmt, symbol: Symbol) -> bool {
    match stmt {
        Stmt::Scan(scan) => scan.row == Some(symbol) || in_all(w, scan.alternatives@, symbol),
        Stmt::Alias(alias) => model::bare_variables(w.cx, alias.pattern).contains(symbol),
        _ => false,
    }
}

/// A variable stands for something before the `k`th statement of an order.
pub open spec fn bound(
    w: World,
    begun: Sense,
    stmts: Seq<Stmt>,
    order: Seq<usize>,
    k: nat,
    symbol: Symbol,
) -> bool
    decreases k,
{
    if k == 0 {
        begun(symbol) is Some
    } else {
        bound(w, begun, stmts, order, (k - 1) as nat, symbol) || leaves(
            w,
            stmts[order[k - 1] as int],
            symbol,
        )
    }
}

/// A sense with those variables, whatever they stand for.
pub open spec fn standing(
    w: World,
    begun: Sense,
    stmts: Seq<Stmt>,
    order: Seq<usize>,
    k: nat,
) -> Sense {
    |symbol: Symbol|
        if bound(w, begun, stmts, order, k, symbol) {
            Some(Thing::Const(NodeId(0)))
        } else {
            None
        }
}

/// A pattern reads only what stands for something.
pub open spec fn alt_ready(w: World, vars: Sense, alt: Alt) -> bool {
    &&& w.cx.ast.has(alt.key)
    &&& w.cx.schema.predicate(alt.predicate) is Some
    &&& likeness::covered(w, vars, alt.key, reading::key_of(w, alt))
}

/// A scan reads only what stands for something; its row and what it takes are new, each
/// taken once, at the same place by every alternative.
pub open spec fn scan_ready(w: World, kinds: Kinds, vars: Sense, scan: Gen) -> bool {
    let alts = scan.alternatives@;
    let taken = reading::bindings(w, vars, scan);
    &&& running::even(w, vars, alts, alts.len())
    &&& running::fitted(w, kinds, alts, scan.row)
    &&& forall|i: int|
        0 <= i < alts.len() ==> alt_ready(w, vars, #[trigger] alts[i]) && taking::distinct(
            reading::takes_key(w, vars, alts[i].key, reading::key_of(w, alts[i])),
        )
    &&& scan.row matches Some(row) ==> vars(row) is None && kinds(row).form is Row
    &&& forall|j: int|
        0 <= j < taken.len() ==> formed(kinds, #[trigger] taken[j])
}

/// A variable is of the form in which it is taken.
pub open spec fn formed(kinds: Kinds, one: (Symbol, Place)) -> bool {
    &&& typing::loose(kinds(one.0))
    &&& kinds(one.0).form is Key <==> one.1 is Key
}

/// A negation reads only what stands for something.
pub open spec fn negation_ready(w: World, vars: Sense, alts: Seq<Alt>) -> bool {
    forall|i: int|
        0 <= i < alts.len() ==> alt_ready(w, vars, #[trigger] alts[i]) && reading::takes_key(
            w,
            vars,
            alts[i].key,
            reading::key_of(w, alts[i]),
        ) == Seq::<(Symbol, Place)>::empty()
}

/// An alias reads only what stands for something; what it names is new, unless it compares
/// two fields.
pub open spec fn alias_ready(
    w: World,
    kinds: Kinds,
    stmts: Seq<Stmt>,
    vars: Sense,
    alias: Alias,
) -> bool {
    &&& likeness::known(w, vars, alias.value)
    &&& exists|kind: Kind| #[trigger]
        typing::has_kind(w, kinds, alias.value, kind) && (if typing::compares(w, stmts, alias) {
            kind.form is Field
        } else {
            typing::pattern_typed(w, kinds, alias.pattern, kind)
        })
    &&& if typing::compares(w, stmts, alias) {
        w.cx.ast.kind(alias.pattern) matches ExprKind::Var(symbol) && vars(symbol) is Some && kinds(
            symbol,
        ).form is Field
    } else {
        let names = model::bare_variables(w.cx, alias.pattern);
        names.no_duplicates() && forall|symbol: Symbol|
            names.contains(symbol) ==> (#[trigger] vars(symbol)) is None
    }
}

/// A statement reads only what stands for something, and names what is new.
pub open spec fn stmt_ready(
    w: World,
    kinds: Kinds,
    stmts: Seq<Stmt>,
    vars: Sense,
    stmt: Stmt,
) -> bool {
    match stmt {
        Stmt::Scan(scan) => scan_ready(w, kinds, vars, scan),
        Stmt::Negate(tested) => negation_ready(w, vars, tested.alternatives@),
        Stmt::Alias(alias) => alias_ready(w, kinds, stmts, vars, alias),
        Stmt::Constrain(_) => true,
    }
}

/// Every statement of an order does, and so does the head.
pub open spec fn legal(
    w: World,
    kinds: Kinds,
    begun: Sense,
    stmts: Seq<Stmt>,
    order: Seq<usize>,
) -> bool {
    &&& forall|k: int|
        0 <= k < order.len() ==> stmt_ready(
            w,
            kinds,
            stmts,
            standing(w, begun, stmts, order, k as nat),
            stmts[#[trigger] order[k] as int],
        )
    &&& said(w, standing(w, begun, stmts, order, order.len()), w.cx.ast.root().head)
}

proof fn lemma_alt_same(w: World, a: Sense, b: Sense, alt: Alt)
    requires
        same_vars(a, b),
        alt_ready(w, a, alt),
    ensures
        alt_ready(w, b, alt),
{
    lemma_covered_more(w, a, b, alt.key, reading::key_of(w, alt));
}

#[verifier::rlimit(30)]
pub proof fn lemma_ready_same(
    w: World,
    kinds: Kinds,
    stmts: Seq<Stmt>,
    a: Sense,
    b: Sense,
    stmt: Stmt,
)
    requires
        same_vars(a, b),
        stmt_ready(w, kinds, stmts, a, stmt),
    ensures
        stmt_ready(w, kinds, stmts, b, stmt),
{
    match stmt {
        Stmt::Scan(scan) => {
            let alts = scan.alternatives@;
            lemma_same_shared(w, a, b, alts, alts.len());
            assert forall|i: int| 0 <= i < alts.len() implies alt_ready(w, b, #[trigger] alts[i])
                && taking::distinct(
                reading::takes_key(w, b, alts[i].key, reading::key_of(w, alts[i])),
            ) by {
                lemma_alt_same(w, a, b, alts[i]);
                lemma_same_takes(w, a, b, alts[i]);
            }
            assert forall|i: int, j: int|
                #![trigger alts[i], reading::shared(w, b, alts, alts.len())[j]]
                0 <= i < alts.len() && 0 <= j < reading::shared(w, b, alts, alts.len()).len() implies
                running::taken_at(
                reading::takes_key(w, b, alts[i].key, reading::key_of(w, alts[i])),
                reading::shared(w, b, alts, alts.len())[j],
            ) by {
                lemma_same_takes(w, a, b, alts[i]);
                assert(running::taken_at(
                    reading::takes_key(w, a, alts[i].key, reading::key_of(w, alts[i])),
                    reading::shared(w, a, alts, alts.len())[j],
                ));
            }
            if let Some(row) = scan.row {
                assert(a(row) is None);
                assert(b(row) is None);
            }
            assert(running::even(w, b, alts, alts.len()));
            let (x, y) = (reading::bindings(w, a, scan), reading::bindings(w, b, scan));
            assert(x == y);
            assert forall|j: int| 0 <= j < y.len() implies formed(kinds, #[trigger] y[j]) by {
                assert(formed(kinds, x[j]));
            }
            assert(scan_ready(w, kinds, b, scan));
        },
        Stmt::Negate(tested) => {
            let alts = tested.alternatives@;
            assert forall|i: int| 0 <= i < alts.len() implies alt_ready(w, b, #[trigger] alts[i])
                && reading::takes_key(w, b, alts[i].key, reading::key_of(w, alts[i])) == Seq::<
                (Symbol, Place),
            >::empty() by {
                lemma_alt_same(w, a, b, alts[i]);
                lemma_same_takes(w, a, b, alts[i]);
            }
        },
        Stmt::Alias(alias) => {
            lemma_known_more(w, a, b, alias.value);
            if typing::compares(w, stmts, alias) {
                assert(a(w.cx.ast.kind(alias.pattern)->Var_0) is Some);
            } else {
                let names = model::bare_variables(w.cx, alias.pattern);
                assert forall|symbol: Symbol| names.contains(symbol) implies (
                #[trigger] b(symbol)) is None by {
                    assert(a(symbol) is None);
                }
            }
            assert(alias_ready(w, kinds, stmts, b, alias));
        },
        Stmt::Constrain(_) => {},
    }
}

// ---- one statement on -------------------------------------------------------

/// A whole key that a pattern takes is of the type of its keys.
proof fn lemma_key_place(w: World, sense: Sense, alt: Alt, m: int)
    requires
        0 <= m < reading::takes_key(w, sense, alt.key, reading::key_of(w, alt)).len(),
    ensures
        reading::takes_key(
            w,
            sense,
            alt.key,
            reading::key_of(w, alt),
        )[m].1 matches Place::Key(ty) ==> ty == reading::key_of(w, alt) && ty is Record,
{
    let ty = reading::key_of(w, alt);
    match (ty, w.cx.ast.kind(alt.key)) {
        (PredicateTy::Record(tys), ExprKind::Record(fields)) => heads::lemma_takes_top(
            w,
            sense,
            fields@,
            tys@,
            tys@.len(),
        ),
        (PredicateTy::Record(_), _) => {},
        _ => heads::lemma_takes_fields(w, sense, alt.key, ty, Route::of(0, Seq::empty())),
    }
}

/// What an alternative takes of what every alternative names, the scan binds, in its form.
proof fn lemma_taken(
    w: World,
    kinds: Kinds,
    sense: Sense,
    scan: Gen,
    a: int,
    m: int,
)
    requires
        footing(w),
        scan_ready(w, kinds, sense, scan),
        0 <= a < scan.alternatives@.len(),
        ({
            let alt = scan.alternatives@[a];
            let own = reading::takes_key(w, sense, alt.key, reading::key_of(w, alt));
            0 <= m < own.len() && in_all(w, scan.alternatives@, own[m].0)
        }),
    ensures
        ({
            let alt = scan.alternatives@[a];
            let one = reading::takes_key(w, sense, alt.key, reading::key_of(w, alt))[m];
            &&& reading::place_of(reading::bindings(w, sense, scan), one.0) == Some(one.1)
            &&& formed(kinds, one)
            &&& kinds(one.0).ty == typing::place_ty(one.1)
            &&& one.1 is Key ==> likeness::named_once(typing::place_ty(one.1))
                && typing::place_ty(one.1) is Record
        }),
{
    let alts = scan.alternatives@;
    let alt = alts[a];
    let own = reading::takes_key(w, sense, alt.key, reading::key_of(w, alt));
    let taken = reading::bindings(w, sense, scan);
    let symbol = own[m].0;
    taking::lemma_key_fresh(w, sense, alt.key, reading::key_of(w, alt));
    assert(sense(symbol) is None);
    typing::lemma_shared(w, sense, alts, alts.len(), symbol);
    running::lemma_place_of(taken, symbol);
    assert(reading::taken_in(taken, symbol));
    let x = choose|x: int| 0 <= x < taken.len() && (#[trigger] taken[x]).0 == symbol;
    assert(reading::place_of(taken, symbol) is Some);
    let place = reading::place_of(taken, symbol)->0;
    let j = choose|j: int| 0 <= j < taken.len() && taken[j] == (symbol, place);
    running::lemma_exactly(w, kinds, sense, alts, alts.len(), scan.row, a, j);
    let y = choose|y: int| 0 <= y < own.len() && #[trigger] own[y] == taken[j];
    assert(alt_ready(w, sense, alts[a]));
    assert(y == m);
    assert(formed(kinds, taken[j]));
    typing::lemma_occurs(w, sense, alt, m);
    let all = typing::occurring(w, alt);
    let p = choose|p: int| 0 <= p < all.len() && all[p] == own[m];
    assert(typing::fits(kinds(all[p].0), all[p].1));
    lemma_key_place(w, sense, alt, m);
    assert(w.cx.schema.predicate(alt.predicate) is Some);
}

/// What one variable stands for once a scan is on a fact.
pub open spec fn entered(
    w: World,
    less: Sense,
    more: Sense,
    scan: Gen,
    alt: Alt,
    fact: Fact,
    symbol: Symbol,
) -> bool {
    if scan.row == Some(symbol) {
        more(symbol) == Some(Thing::Row { fact, predicate: Some(alt.predicate) })
    } else if less(symbol) is Some {
        more(symbol) == less(symbol)
    } else if in_all(w, scan.alternatives@, symbol) {
        exists|m: int|
            0 <= m < reading::takes_key(w, less, alt.key, reading::key_of(w, alt)).len()
                && (#[trigger] reading::takes_key(
                w,
                less,
                alt.key,
                reading::key_of(w, alt),
            )[m]).0 == symbol && more(symbol) == Some(
                reading::thing_at(
                    fact,
                    reading::takes_key(w, less, alt.key, reading::key_of(w, alt))[m].1,
                ),
            )
    } else {
        more(symbol) is None
    }
}

proof fn lemma_entered(
    w: World,
    kinds: Kinds,
    found: Found,
    scan: Gen,
    a: int,
    fact: Fact,
    symbol: Symbol,
)
    requires
        footing(w),
        scan_ready(w, kinds, found.sense, scan),
        0 <= a < scan.alternatives@.len(),
    ensures
        entered(
            w,
            found.sense,
            reading::with_fact(w, found, scan, scan.alternatives@[a], fact).sense,
            scan,
            scan.alternatives@[a],
            fact,
            symbol,
        ),
{
    let alts = scan.alternatives@;
    let alt = alts[a];
    let sense = found.sense;
    let own = reading::takes_key(w, sense, alt.key, reading::key_of(w, alt));
    let taken = reading::bindings(w, sense, scan);
    typing::lemma_shared(w, sense, alts, alts.len(), symbol);
    running::lemma_place_of(taken, symbol);
    if scan.row != Some(symbol) {
        if sense(symbol) is Some {
            assert(!reading::taken_in(taken, symbol));
            if let Some(place) = reading::place_of(taken, symbol) {
                let j = choose|j: int| 0 <= j < taken.len() && taken[j] == (symbol, place);
                assert(taken[j].0 == symbol);
            }
        } else if in_all(w, alts, symbol) {
            typing::lemma_occurs_taken(w, sense, alt, symbol);
            assert(reading::taken_in(typing::occurring(w, alts[a]), symbol));
            let m = choose|m: int| 0 <= m < own.len() && (#[trigger] own[m]).0 == symbol;
            lemma_taken(w, kinds, sense, scan, a, m);
            assert(own[m].0 == symbol);
        } else {
            if let Some(place) = reading::place_of(taken, symbol) {
                let j = choose|j: int| 0 <= j < taken.len() && taken[j] == (symbol, place);
                assert(taken[j].0 == symbol);
                assert(reading::taken_in(taken, symbol));
            }
        }
    }
}

/// What is taken of a fact that is matched is there, of its variable's kind.
proof fn lemma_taken_there(
    w: World,
    kinds: Kinds,
    sense: Sense,
    scan: Gen,
    a: int,
    fact: Fact,
    m: int,
)
    requires
        footing(w),
        scan_ready(w, kinds, sense, scan),
        0 <= a < scan.alternatives@.len(),
        w.facts.contains(fact),
        reading::matches(w, sense, scan.alternatives@[a], fact),
        ({
            let alt = scan.alternatives@[a];
            let own = reading::takes_key(w, sense, alt.key, reading::key_of(w, alt));
            0 <= m < own.len() && in_all(w, scan.alternatives@, own[m].0)
        }),
    ensures
        ({
            let alt = scan.alternatives@[a];
            let one = reading::takes_key(w, sense, alt.key, reading::key_of(w, alt))[m];
            let thing = reading::thing_at(fact, one.1);
            is_there(w, thing) && is_kind(thing, kinds(one.0))
        }),
{
    let alt = scan.alternatives@[a];
    let ty = reading::key_of(w, alt);
    let own = reading::takes_key(w, sense, alt.key, ty);
    let one = own[m];
    lemma_taken(w, kinds, sense, scan, a, m);
    let d = choose|d: Datum|
        #[trigger] layout::key_is(w.names, fact.key(), ty, d) && reading::means_key(
            w,
            sense,
            alt.key,
            ty,
            d,
        );
    assert(alt_ready(w, sense, scan.alternatives@[a]));
    taking::lemma_key_there(w, sense, fact, alt.key, ty, d, true);
    assert(taking::there(w, fact, own[m], true));
    match one.1 {
        Place::Field(path, of) => {
            let x = choose|x: Datum|
                #[trigger] layout::holds_at(fact.key(), path, x) && tuple::fits(w.names, x, of)
                    && reading::allowed(w, one.0, x);
            assert(layout::holds_at(fact.key(), path, x) && tuple::fits(w.names, x, of));
            assert(likeness::same_field(w, fact, path, fact, path, of));
        },
        Place::Key(of) => {
            lemma_key_place(w, sense, alt, m);
            assert(layout::key_is(w.names, fact.key(), of, d));
            assert(likeness::same_key(w, fact, fact, of));
        },
    }
}

/// A scan that is on a fact it matches leaves things that are there.
proof fn lemma_scan_lively(
    w: World,
    kinds: Kinds,
    found: Found,
    scan: Gen,
    a: int,
    fact: Fact,
)
    requires
        footing(w),
        lively(w, kinds, found.sense),
        scan_ready(w, kinds, found.sense, scan),
        0 <= a < scan.alternatives@.len(),
        w.facts.contains(fact),
        reading::matches(w, found.sense, scan.alternatives@[a], fact),
    ensures
        lively(
            w,
            kinds,
            reading::with_fact(w, found, scan, scan.alternatives@[a], fact).sense,
        ),
{
    let alt = scan.alternatives@[a];
    let more = reading::with_fact(w, found, scan, alt, fact).sense;
    let own = reading::takes_key(w, found.sense, alt.key, reading::key_of(w, alt));
    assert forall|symbol: Symbol| (#[trigger] more(symbol)) is Some implies is_there(
        w,
        more(symbol)->0,
    ) && is_kind(more(symbol)->0, kinds(symbol)) by {
        lemma_entered(w, kinds, found, scan, a, fact, symbol);
        if scan.row == Some(symbol) {
            assert(alt_ready(w, found.sense, scan.alternatives@[a]));
            assert(matching::of_predicate(w.cx, w.names, fact, alt.predicate));
        } else if (found.sense)(symbol) is None {
            let m = choose|m: int|
                0 <= m < own.len() && (#[trigger] own[m]).0 == symbol && more(symbol) == Some(
                    reading::thing_at(fact, own[m].1),
                );
            lemma_taken_there(w, kinds, found.sense, scan, a, fact, m);
        }
    }
}

/// One sense has what another has, as it is.
pub open spec fn extends(less: Sense, more: Sense) -> bool {
    forall|symbol: Symbol| (#[trigger] less(symbol)) is Some ==> more(symbol) == less(symbol)
}

/// What a run of some statements keeps: whatever stands for something is there, of its kind,
/// and just what the statements leave stands for something.
pub open spec fn sound_at(
    w: World,
    kinds: Kinds,
    begun: Sense,
    stmts: Seq<Stmt>,
    order: Seq<usize>,
    k: nat,
    found: Found,
) -> bool {
    &&& lively(w, kinds, found.sense)
    &&& same_vars(found.sense, standing(w, begun, stmts, order, k))
}

/// A choice is one a statement has.
pub open spec fn choice_of(w: World, stmt: Stmt, choice: Choice) -> bool {
    stmt matches Stmt::Scan(scan) ==> scan.alternatives@.contains(choice.0) && w.facts.contains(
        choice.1,
    )
}

#[verifier::rlimit(30)]
proof fn lemma_on(
    w: World,
    kinds: Kinds,
    begun: Sense,
    stmts: Seq<Stmt>,
    order: Seq<usize>,
    k: nat,
    found: Found,
    choice: Choice,
)
    requires
        footing(w),
        k < order.len(),
        sound_at(w, kinds, begun, stmts, order, k, found),
        stmt_ready(w, kinds, stmts, found.sense, stmts[order[k as int] as int]),
        choice_of(w, stmts[order[k as int] as int], choice),
        orders::on(w, stmts[order[k as int] as int], found, choice) is Some,
    ensures
        ({
            let next = orders::on(w, stmts[order[k as int] as int], found, choice)->0;
            &&& sound_at(w, kinds, begun, stmts, order, k + 1, next)
            &&& extends(found.sense, next.sense)
            &&& settled(next.pairs) ==> settled(found.pairs)
        }),
{
    let stmt = stmts[order[k as int] as int];
    let next = orders::on(w, stmt, found, choice)->0;
    let before = standing(w, begun, stmts, order, k);
    let after = standing(w, begun, stmts, order, k + 1);
    match stmt {
        Stmt::Scan(scan) => {
            let alts = scan.alternatives@;
            let a = choose|a: int| 0 <= a < alts.len() && alts[a] == choice.0;
            lemma_scan_lively(w, kinds, found, scan, a, choice.1);
            assert forall|symbol: Symbol| (#[trigger] (next.sense)(symbol)) is Some == after(
                symbol,
            ) is Some by {
                lemma_entered(w, kinds, found, scan, a, choice.1, symbol);
                assert((found.sense)(symbol) is Some == before(symbol) is Some);
            }
            assert forall|symbol: Symbol| (#[trigger] (found.sense)(symbol)) is Some implies (
            next.sense)(symbol) == (found.sense)(symbol) by {
                lemma_entered(w, kinds, found, scan, a, choice.1, symbol);
            }
        },
        Stmt::Alias(alias) => {
            let kind = choose|kind: Kind| #[trigger]
                typing::has_kind(w, kinds, alias.value, kind) && (if typing::compares(
                    w,
                    stmts,
                    alias,
                ) {
                    kind.form is Field
                } else {
                    typing::pattern_typed(w, kinds, alias.pattern, kind)
                });
            lemma_stands(w, kinds, found.sense, alias.value, kind);
            let thing = reading::thing_of(w, found.sense, alias.value)->0;
            let names = model::bare_variables(w.cx, alias.pattern);
            if typing::compares(w, stmts, alias) {
                let var = w.cx.ast.kind(alias.pattern)->Var_0;
                assert((found.sense)(var) is Some);
                assert forall|symbol: Symbol| (#[trigger] (next.sense)(symbol)) is Some == after(
                    symbol,
                ) is Some by {
                    assert((found.sense)(symbol) is Some == before(symbol) is Some);
                    if names.contains(symbol) {
                        assert(symbol == var);
                    }
                }
                if settled(next.pairs) {
                    assert forall|i: int| 0 <= i < found.pairs.len() implies reading::same(
                        (#[trigger] found.pairs[i]).0,
                        found.pairs[i].1,
                    ) by {
                        assert(next.pairs[i] == found.pairs[i]);
                    }
                }
            } else {
                lemma_names(
                    w,
                    kinds,
                    found,
                    found,
                    alias.pattern,
                    thing,
                    thing,
                    kind,
                );
                assert forall|symbol: Symbol| (#[trigger] (next.sense)(symbol)) is Some == after(
                    symbol,
                ) is Some by {
                    assert(is_named(w, kinds, found, found, next, next, names, symbol));
                    assert((found.sense)(symbol) is Some == before(symbol) is Some);
                }
                assert forall|symbol: Symbol| (#[trigger] (found.sense)(symbol)) is Some implies (
                next.sense)(symbol) == (found.sense)(symbol) by {
                    assert(is_named(w, kinds, found, found, next, next, names, symbol));
                }
                assert forall|symbol: Symbol| (#[trigger] (next.sense)(symbol)) is Some implies
                    is_there(w, (next.sense)(symbol)->0) && is_kind(
                    (next.sense)(symbol)->0,
                    kinds(symbol),
                ) by {
                    assert(is_named(w, kinds, found, found, next, next, names, symbol));
                    if !names.contains(symbol) {
                        assert((found.sense)(symbol) is Some);
                    }
                }
            }
        },
        _ => {
            assert forall|symbol: Symbol| (#[trigger] (next.sense)(symbol)) is Some == after(
                symbol,
            ) is Some by {
                assert((found.sense)(symbol) is Some == before(symbol) is Some);
            }
        },
    }
}

// ---- the same choices in another order --------------------------------------

/// What two orders of a body are compared with.
pub open spec fn comparing(
    w: World,
    kinds: Kinds,
    found: Found,
    stmts: Seq<Stmt>,
    one: Seq<usize>,
    other: Seq<usize>,
) -> bool {
    &&& footing(w)
    &&& lively(w, kinds, found.sense)
    &&& reorder::is_order(stmts.len(), one)
    &&& reorder::is_order(stmts.len(), other)
    &&& legal(w, kinds, found.sense, stmts, one)
    &&& legal(w, kinds, found.sense, stmts, other)
    &&& forall|i: int|
        0 <= i < w.constraints.len() ==> kinds((#[trigger] w.constraints[i]).0).ty is Str
    &&& unmixed(w, found.sense, stmts, one, other)
}

/// A variable that some alternative of a scan names, and another does not, stands for something
/// before the scan in both orders, or in neither.
pub open spec fn unmixed(
    w: World,
    begun: Sense,
    stmts: Seq<Stmt>,
    one: Seq<usize>,
    other: Seq<usize>,
) -> bool {
    forall|i: int, j: int, symbol: Symbol|
        #![trigger one[i], other[j], local(w, stmts[one[i] as int], symbol)]
        0 <= i < one.len() && 0 <= j < other.len() && one[i] == other[j] && local(
            w,
            stmts[one[i] as int],
            symbol,
        ) ==> bound(w, begun, stmts, one, i as nat, symbol) == bound(
            w,
            begun,
            stmts,
            other,
            j as nat,
            symbol,
        )
}

/// Some alternative of a scan names a variable, and another does not.
pub open spec fn local(w: World, stmt: Stmt, symbol: Symbol) -> bool {
    stmt matches Stmt::Scan(scan) && !in_all(w, scan.alternatives@, symbol) && exists|a: int|
        0 <= a < scan.alternatives@.len() && reading::taken_in(
            typing::occurring(w, #[trigger] scan.alternatives@[a]),
            symbol,
        )
}

proof fn lemma_offered(w: World, stmts: Seq<Stmt>, order: Seq<usize>, c: Choices, k: int)
    requires
        orders::offered(w, stmts, order, c),
        0 <= k < order.len(),
    ensures
        choice_of(w, stmts[order[k] as int], c(order[k])),
{
    if let Stmt::Scan(scan) = stmts[order[k] as int] {
        let cs = orders::choices(scan.alternatives@, w.facts);
        orders::lemma_choices(scan.alternatives@, w.facts);
        assert(cs.contains(c(order[k])));
        let i = choose|i: int| 0 <= i < cs.len() && cs[i] == c(order[k]);
        assert(scan.alternatives@.contains(cs[i].0));
    }
}

/// What is reached of some choices is sound, and the end has what it has.
proof fn lemma_reached(
    w: World,
    kinds: Kinds,
    found: Found,
    stmts: Seq<Stmt>,
    order: Seq<usize>,
    c: Choices,
    k: nat,
)
    requires
        footing(w),
        lively(w, kinds, found.sense),
        legal(w, kinds, found.sense, stmts, order),
        orders::offered(w, stmts, order, c),
        k <= order.len(),
        orders::reach(w, stmts, order, k, found, c) is Some,
    ensures
        sound_at(
            w,
            kinds,
            found.sense,
            stmts,
            order,
            k,
            orders::reach(w, stmts, order, k, found, c)->0,
        ),
        k < order.len() ==> stmt_ready(
            w,
            kinds,
            stmts,
            orders::reach(w, stmts, order, k, found, c)->0.sense,
            stmts[order[k as int] as int],
        ),
    decreases k,
{
    let begun = found.sense;
    let here = orders::reach(w, stmts, order, k, found, c)->0;
    if k == 0 {
        assert forall|symbol: Symbol| (#[trigger] (here.sense)(symbol)) is Some == standing(
            w,
            begun,
            stmts,
            order,
            0,
        )(symbol) is Some by {}
    } else {
        let j = (k - 1) as nat;
        lemma_reached(w, kinds, found, stmts, order, c, j);
        lemma_offered(w, stmts, order, c, j as int);
        let before = orders::reach(w, stmts, order, j, found, c)->0;
        lemma_on(w, kinds, begun, stmts, order, j, before, c(order[j as int]));
    }
    if k < order.len() {
        let vars = standing(w, begun, stmts, order, k);
        assert(stmt_ready(w, kinds, stmts, vars, stmts[order[k as int] as int]));
        assert(same_vars(vars, here.sense)) by {
            assert forall|symbol: Symbol| (#[trigger] vars(symbol)) is Some == (here.sense)(
                symbol,
            ) is Some by {
                assert((here.sense)(symbol) is Some == vars(symbol) is Some);
            }
        }
        lemma_ready_same(w, kinds, stmts, vars, here.sense, stmts[order[k as int] as int]);
    }
}

proof fn lemma_reached_end(
    w: World,
    kinds: Kinds,
    found: Found,
    stmts: Seq<Stmt>,
    order: Seq<usize>,
    c: Choices,
    k: nat,
    n: nat,
)
    requires
        footing(w),
        lively(w, kinds, found.sense),
        legal(w, kinds, found.sense, stmts, order),
        orders::offered(w, stmts, order, c),
        k <= n <= order.len(),
        orders::reach(w, stmts, order, n, found, c) is Some,
    ensures
        ({
            let end = orders::reach(w, stmts, order, n, found, c)->0;
            orders::reach(w, stmts, order, k, found, c) matches Some(here) && extends(
                here.sense,
                end.sense,
            ) && (settled(end.pairs) ==> settled(here.pairs))
        }),
    decreases n - k,
{
    if k < n {
        lemma_reached_end(w, kinds, found, stmts, order, c, k + 1, n);
        let here = orders::reach(w, stmts, order, k, found, c);
        assert(here is Some);
        lemma_reached(w, kinds, found, stmts, order, c, k);
        lemma_offered(w, stmts, order, c, k as int);
        lemma_on(
            w,
            kinds,
            found.sense,
            stmts,
            order,
            k,
            here->0,
            c(order[k as int]),
        );
        let next = orders::reach(w, stmts, order, k + 1, found, c)->0;
        let end = orders::reach(w, stmts, order, n, found, c)->0;
        assert forall|symbol: Symbol| (#[trigger] (here->0.sense)(symbol)) is Some implies (
        end.sense)(symbol) == (here->0.sense)(symbol) by {
            assert((next.sense)(symbol) is Some);
        }
    }
}

/// What two senses both have, as the second has it.
pub open spec fn meet(a: Sense, b: Sense) -> Sense {
    |symbol: Symbol|
        if a(symbol) is Some && b(symbol) is Some {
            b(symbol)
        } else {
            None
        }
}

proof fn lemma_known_meet(w: World, a: Sense, b: Sense, node: NodeId)
    requires
        likeness::known(w, a, node),
        likeness::known(w, b, node),
    ensures
        likeness::known(w, meet(a, b), node),
    decreases node.0,
{
    if let ExprKind::Access(_, base) = w.cx.ast.kind(node) {
        if base.0 < node.0 {
            lemma_known_meet(w, a, b, base);
        }
    }
}

proof fn lemma_covered_meet(w: World, a: Sense, b: Sense, node: NodeId, ty: PredicateTy)
    requires
        likeness::covered(w, a, node, ty),
        likeness::covered(w, b, node, ty),
    ensures
        likeness::covered(w, meet(a, b), node, ty),
    decreases node.0,
{
    match w.cx.ast.kind(node) {
        ExprKind::Var(_) => {},
        ExprKind::Record(fields) => {
            if let PredicateTy::Record(tys) = ty {
                assert forall|i: int| 0 <= i < tys@.len() implies (model::field_pattern(
                    fields@,
                    Symbol::Schema((#[trigger] tys@[i]).0),
                ) matches Some(inner) ==> inner.0 < node.0 ==> likeness::covered(
                    w,
                    meet(a, b),
                    inner,
                    tys@[i].1,
                )) by {
                    if let Some(inner) = model::field_pattern(
                        fields@,
                        Symbol::Schema(tys@[i].0),
                    ) {
                        if inner.0 < node.0 {
                            lemma_covered_meet(w, a, b, inner, tys@[i].1);
                        }
                    }
                }
            }
        },
        _ => lemma_known_meet(w, a, b, node),
    }
}

/// Everything the body constrains holds.
pub open spec fn satisfied(w: World, sense: Sense) -> bool {
    forall|i: int|
        0 <= i < w.constraints.len() ==> reading::satisfied(
            w,
            sense,
            (#[trigger] w.constraints[i]).0,
            w.constraints[i].1,
        )
}

proof fn lemma_patterns(constraints: Seq<(Symbol, NodeId)>, symbol: Symbol, i: int)
    requires
        0 <= i < model::patterns_of(constraints, symbol).len(),
    ensures
        exists|j: int|
            0 <= j < constraints.len() && #[trigger] constraints[j] == (
                symbol,
                model::patterns_of(constraints, symbol)[i],
            ),
    decreases constraints.len(),
{
    let shorter = constraints.drop_last();
    let before = model::patterns_of(shorter, symbol);
    assert(constraints[constraints.len() - 1] == constraints.last());
    if i < before.len() {
        lemma_patterns(shorter, symbol, i);
        let j = choose|j: int| 0 <= j < shorter.len() && #[trigger] shorter[j] == (
            symbol,
            before[i],
        );
        assert(constraints[j] == (symbol, before[i]));
    }
}

/// A field like one whose constraints hold has a value that is allowed.
proof fn lemma_allowed(w: World, kinds: Kinds, s: Sense, symbol: Symbol, y: Thing)
    requires
        satisfied(w, s),
        forall|i: int|
            0 <= i < w.constraints.len() ==> kinds((#[trigger] w.constraints[i]).0).ty is Str,
        s(symbol) matches Some(x) && likeness::like(w, y, x),
        y is Field,
        y->Field_ty == kinds(symbol).ty,
    ensures
        likeness::allowed_at(w, y->Field_fact, y->Field_path, y->Field_ty, symbol),
{
    let x = s(symbol)->0;
    let ty = y->Field_ty;
    let (a, p) = (y->Field_fact, y->Field_path);
    let (b, q) = (x->Field_fact, x->Field_path);
    let e = choose|e: Datum|
        #[trigger] layout::holds_at(a.key(), p, e) && layout::holds_at(b.key(), q, e)
            && tuple::fits(w.names, e, ty);
    let patterns = model::patterns_of(w.constraints, symbol);
    assert forall|i: int| 0 <= i < patterns.len() implies (w.cx.ast.kind(
        #[trigger] patterns[i],
    ) matches ExprKind::Prefix(text) && reading::begins(w.names, text, e)) by {
        lemma_patterns(w.constraints, symbol, i);
        let j = choose|j: int|
            0 <= j < w.constraints.len() && #[trigger] w.constraints[j] == (symbol, patterns[i]);
        assert(reading::satisfied(w, s, w.constraints[j].0, w.constraints[j].1));
        assert(kinds(w.constraints[j].0).ty is Str);
        if let ExprKind::Prefix(text) = w.cx.ast.kind(patterns[i]) {
            let d = choose|d: Datum|
                #[trigger] layout::holds_at(b.key(), q, d) && reading::begins(w.names, text, d);
            assert(tuple::enc(d) == tuple::enc(e));
            matching::lemma_same_value(w.names, d, e, ty);
        }
    }
    assert(layout::holds_at(a.key(), p, e) && tuple::fits(w.names, e, ty) && reading::allowed(
        w,
        symbol,
        e,
    ));
}

/// What a sense adds to another, where it is like one whose constraints hold.
proof fn lemma_compared(w: World, kinds: Kinds, less: Sense, more: Sense, s: Sense)
    requires
        footing(w),
        lively(w, kinds, more),
        satisfied(w, s),
        forall|i: int|
            0 <= i < w.constraints.len() ==> kinds((#[trigger] w.constraints[i]).0).ty is Str,
        likeness::within(w, less, more),
        likeness::within(w, more, s),
    ensures
        likeness::compared(w, kinds, less, more),
{
    assert forall|symbol: Symbol| #[trigger] likeness::adds(w, kinds, less, more, symbol) by {
        if less(symbol) is None && typing::loose(kinds(symbol)) {
            if let Some(y) = more(symbol) {
                if y is Field {
                    lemma_allowed(w, kinds, s, symbol, y);
                }
            }
        }
    }
}

proof fn lemma_within_extends(w: World, kinds: Kinds, less: Sense, more: Sense)
    requires
        lively(w, kinds, less),
        extends(less, more),
    ensures
        likeness::within(w, less, more),
{
    assert forall|symbol: Symbol| (#[trigger] less(symbol)) is Some implies (more(
        symbol,
    ) matches Some(y) && likeness::like(w, less(symbol)->0, y)) by {}
}

/// The senses two runs have at a statement, and what both are within.
pub open spec fn two_runs(w: World, kinds: Kinds, g: Sense, h: Sense, s: Sense) -> bool {
    &&& footing(w)
    &&& lively(w, kinds, g)
    &&& lively(w, kinds, h)
    &&& extends(g, s)
    &&& likeness::within(w, h, s)
    &&& satisfied(w, s)
    &&& forall|i: int|
        0 <= i < w.constraints.len() ==> kinds((#[trigger] w.constraints[i]).0).ty is Str
}

/// Both have what they both have.
proof fn lemma_meet(w: World, kinds: Kinds, g: Sense, h: Sense, s: Sense)
    requires
        two_runs(w, kinds, g, h, s),
    ensures
        likeness::compared(w, kinds, meet(g, h), g),
        likeness::compared(w, kinds, meet(g, h), h),
        typing::covers(meet(g, h), g),
        typing::covers(meet(g, h), h),
{
    let m = meet(g, h);
    assert forall|symbol: Symbol| (#[trigger] m(symbol)) is Some implies (g(symbol) matches Some(y)
        && likeness::like(w, m(symbol)->0, y)) by {
        assert(h(symbol) is Some);
        assert(g(symbol) is Some);
    }
    assert forall|symbol: Symbol| (#[trigger] m(symbol)) is Some implies (h(symbol) matches Some(y)
        && likeness::like(w, m(symbol)->0, y)) by {
        assert(h(symbol) is Some);
    }
    lemma_within_extends(w, kinds, g, s);
    lemma_compared(w, kinds, m, g, s);
    lemma_compared(w, kinds, m, h, s);
}

/// A negation is denied alike.
proof fn lemma_denied(w: World, kinds: Kinds, g: Sense, h: Sense, s: Sense, alts: Seq<Alt>)
    requires
        two_runs(w, kinds, g, h, s),
        negation_ready(w, g, alts),
        negation_ready(w, h, alts),
    ensures
        reading::denied(w, g, alts) == reading::denied(w, h, alts),
{
    let m = meet(g, h);
    lemma_meet(w, kinds, g, h, s);
    assert forall|i: int| 0 <= i < alts.len() implies reading::matched(
        w,
        g,
        #[trigger] alts[i],
    ) == reading::matched(w, h, alts[i]) by {
        let alt = alts[i];
        let ty = reading::key_of(w, alt);
        let none = Seq::<(Symbol, Place)>::empty();
        assert(alt_ready(w, g, alt) && alt_ready(w, h, alt));
        lemma_covered_meet(w, g, h, alt.key, ty);
        let taken = reading::takes_key(w, m, alt.key, ty);
        taking::lemma_key_fresh(w, m, alt.key, ty);
        typing::lemma_takes_key_less(w, m, g, alt.key, ty);
        typing::lemma_takes_key_less(w, m, h, alt.key, ty);
        assert(taken =~= none) by {
            if taken.len() > 0 {
                let symbol = taken[0].0;
                assert(m(symbol) is None);
                if g(symbol) is None {
                    taken.lemma_filter_contains(typing::missing(g), 0);
                    assert(none.contains(taken[0]));
                } else {
                    taken.lemma_filter_contains(typing::missing(h), 0);
                    assert(none.contains(taken[0]));
                }
            }
        }
        let x = |fact: Fact| reading::matches(w, g, alt, fact);
        let y = |fact: Fact| reading::matches(w, h, alt, fact);
        assert forall|fact: Fact| #[trigger] x(fact) == y(fact) by {
            likeness::lemma_matches(w, kinds, m, g, alt, fact);
            likeness::lemma_matches(w, kinds, m, h, alt, fact);
        }
        assert(x =~= y);
    }
}

/// What is taken where only one of two runs has a variable.
proof fn lemma_one_side(
    w: World,
    kinds: Kinds,
    g: Sense,
    h: Sense,
    scan: Gen,
    a: int,
    m: int,
) -> (x: int)
    requires
        footing(w),
        scan_ready(w, kinds, g, scan),
        0 <= a < scan.alternatives@.len(),
        typing::covers(meet(g, h), g),
        ({
            let alt = scan.alternatives@[a];
            let own = reading::takes_key(w, meet(g, h), alt.key, reading::key_of(w, alt));
            0 <= m < own.len() && g(own[m].0) is None && in_all(w, scan.alternatives@, own[m].0)
        }),
    ensures
        ({
            let alt = scan.alternatives@[a];
            let both = reading::takes_key(w, meet(g, h), alt.key, reading::key_of(w, alt));
            let own = reading::takes_key(w, g, alt.key, reading::key_of(w, alt));
            &&& 0 <= x < own.len()
            &&& own[x] == both[m]
            &&& formed(kinds, own[x])
            &&& kinds(own[x].0).ty == typing::place_ty(own[x].1)
            &&& own[x].1 is Key ==> likeness::named_once(typing::place_ty(own[x].1))
            &&& forall|y: int|
                0 <= y < own.len() && (#[trigger] own[y]).0 == both[m].0 ==> own[y] == both[m]
        }),
{
    let alt = scan.alternatives@[a];
    let ty = reading::key_of(w, alt);
    let both = reading::takes_key(w, meet(g, h), alt.key, ty);
    let own = reading::takes_key(w, g, alt.key, ty);
    typing::lemma_takes_key_less(w, meet(g, h), g, alt.key, ty);
    both.lemma_filter_contains(typing::missing(g), m);
    let x = choose|x: int| 0 <= x < own.len() && own[x] == both[m];
    lemma_taken(w, kinds, g, scan, a, x);
    assert(alt_ready(w, g, scan.alternatives@[a]));
    x
}

/// A variable that some alternative takes and only one of two runs has, every alternative
/// names.
pub open spec fn evenly(w: World, g: Sense, h: Sense, scan: Gen) -> bool {
    forall|symbol: Symbol|
        #![trigger g(symbol)]
        #![trigger h(symbol)]
        local(w, Stmt::Scan(scan), symbol) ==> g(symbol) is Some == h(symbol) is Some
}

proof fn lemma_in_all(
    w: World,
    g: Sense,
    h: Sense,
    scan: Gen,
    a: int,
    m: int,
)
    requires
        evenly(w, g, h, scan),
        0 <= a < scan.alternatives@.len(),
        ({
            let alt = scan.alternatives@[a];
            let own = reading::takes_key(w, meet(g, h), alt.key, reading::key_of(w, alt));
            0 <= m < own.len() && (g(own[m].0) is Some) != (h(own[m].0) is Some)
        }),
    ensures
        ({
            let alt = scan.alternatives@[a];
            let own = reading::takes_key(w, meet(g, h), alt.key, reading::key_of(w, alt));
            in_all(w, scan.alternatives@, own[m].0)
        }),
{
    let alts = scan.alternatives@;
    let alt = alts[a];
    let own = reading::takes_key(w, meet(g, h), alt.key, reading::key_of(w, alt));
    let symbol = own[m].0;
    typing::lemma_occurs(w, meet(g, h), alt, m);
    let all = typing::occurring(w, alt);
    let p = choose|p: int| 0 <= p < all.len() && all[p] == own[m];
    assert(all[p].0 == symbol);
    assert(reading::taken_in(typing::occurring(w, alts[a]), symbol));
    if !in_all(w, alts, symbol) {
        assert(local(w, Stmt::Scan(scan), symbol));
        assert(g(symbol) is Some == h(symbol) is Some);
    }
}

/// A fact that a scan is on in one run, it is on in another.
#[verifier::rlimit(40)]
proof fn lemma_scan_step(
    w: World,
    kinds: Kinds,
    g: Found,
    h: Found,
    s: Sense,
    scan: Gen,
    a: int,
    fact: Fact,
)
    requires
        two_runs(w, kinds, g.sense, h.sense, s),
        scan_ready(w, kinds, g.sense, scan),
        scan_ready(w, kinds, h.sense, scan),
        evenly(w, g.sense, h.sense, scan),
        0 <= a < scan.alternatives@.len(),
        w.facts.contains(fact),
        reading::matches(w, g.sense, scan.alternatives@[a], fact),
        extends(reading::with_fact(w, g, scan, scan.alternatives@[a], fact).sense, s),
    ensures
        reading::matches(w, h.sense, scan.alternatives@[a], fact),
        likeness::within(
            w,
            reading::with_fact(w, h, scan, scan.alternatives@[a], fact).sense,
            s,
        ),
{
    let alt = scan.alternatives@[a];
    let ty = reading::key_of(w, alt);
    let (gs, hs) = (g.sense, h.sense);
    let m = meet(gs, hs);
    let both = reading::takes_key(w, m, alt.key, ty);
    let on = reading::with_fact(w, g, scan, alt, fact).sense;
    lemma_meet(w, kinds, gs, hs, s);
    assert(alt_ready(w, gs, scan.alternatives@[a]) && alt_ready(w, hs, scan.alternatives@[a]));
    lemma_covered_meet(w, gs, hs, alt.key, ty);
    taking::lemma_key_fresh(w, m, alt.key, ty);
    assert(likeness::fitting(kinds, both, gs)) by {
        assert forall|i: int| 0 <= i < both.len() && gs((#[trigger] both[i]).0) is Some implies
            formed(kinds, both[i]) && kinds(both[i].0).ty == typing::place_ty(both[i].1) && (
        both[i].1 is Key ==> likeness::named_once(typing::place_ty(both[i].1))) by {
            assert(m(both[i].0) is None);
            lemma_in_all(w, gs, hs, scan, a, i);
            lemma_other_side(w, kinds, gs, hs, scan, a, i);
        }
    }
    assert(likeness::fitting(kinds, both, hs)) by {
        assert forall|i: int| 0 <= i < both.len() && hs((#[trigger] both[i]).0) is Some implies
            formed(kinds, both[i]) && kinds(both[i].0).ty == typing::place_ty(both[i].1) && (
        both[i].1 is Key ==> likeness::named_once(typing::place_ty(both[i].1))) by {
            assert(m(both[i].0) is None);
            lemma_in_all(w, gs, hs, scan, a, i);
            let x = lemma_one_side(w, kinds, gs, hs, scan, a, i);
        }
    }
    likeness::lemma_matches(w, kinds, m, gs, alt, fact);
    likeness::lemma_matches(w, kinds, m, hs, alt, fact);
    assert(likeness::agreeing(w, fact, both, hs)) by {
        assert forall|i: int| 0 <= i < both.len() && hs((#[trigger] both[i]).0) is Some implies
            likeness::like(
            w,
            reading::thing_at(fact, both[i].1),
            hs(both[i].0)->0,
        ) by {
            let symbol = both[i].0;
            assert(m(symbol) is None);
            lemma_in_all(w, gs, hs, scan, a, i);
            let x = lemma_one_side(w, kinds, gs, hs, scan, a, i);
            lemma_entered(w, kinds, g, scan, a, fact, symbol);
            assert(scan.row != Some(symbol));
            assert(on(symbol) == Some(reading::thing_at(fact, both[i].1)));
            assert(s(symbol) == on(symbol));
            likeness::lemma_like_back(w, hs(symbol)->0, s(symbol)->0);
        }
    }
    let more = reading::with_fact(w, h, scan, alt, fact).sense;
    let own = reading::takes_key(w, hs, alt.key, ty);
    lemma_scan_lively(w, kinds, h, scan, a, fact);
    assert forall|symbol: Symbol| (#[trigger] more(symbol)) is Some implies (s(
        symbol,
    ) matches Some(y) && likeness::like(w, more(symbol)->0, y)) by {
        lemma_entered(w, kinds, h, scan, a, fact, symbol);
        lemma_entered(w, kinds, g, scan, a, fact, symbol);
        if scan.row == Some(symbol) {
            assert(on(symbol) is Some);
        } else if hs(symbol) is None {
            let x = choose|x: int|
                0 <= x < own.len() && (#[trigger] own[x]).0 == symbol && more(symbol) == Some(
                    reading::thing_at(fact, own[x].1),
                );
            typing::lemma_takes_key_less(w, m, hs, alt.key, ty);
            both.lemma_filter_contains_rev(typing::missing(hs), own[x]);
            let i = choose|i: int| 0 <= i < both.len() && both[i] == own[x];
            if gs(symbol) is Some {
                assert(likeness::like(w, reading::thing_at(fact, both[i].1), gs(both[i].0)->0));
            } else {
                let z = lemma_one_side(w, kinds, gs, hs, scan, a, i);
                assert(on(symbol) == Some(reading::thing_at(fact, both[i].1)));
            }
        }
    }
}

/// The other side of [`lemma_one_side`].
proof fn lemma_other_side(
    w: World,
    kinds: Kinds,
    g: Sense,
    h: Sense,
    scan: Gen,
    a: int,
    m: int,
)
    requires
        footing(w),
        scan_ready(w, kinds, h, scan),
        0 <= a < scan.alternatives@.len(),
        typing::covers(meet(g, h), h),
        ({
            let alt = scan.alternatives@[a];
            let own = reading::takes_key(w, meet(g, h), alt.key, reading::key_of(w, alt));
            0 <= m < own.len() && h(own[m].0) is None && in_all(w, scan.alternatives@, own[m].0)
        }),
    ensures
        ({
            let alt = scan.alternatives@[a];
            let one = reading::takes_key(w, meet(g, h), alt.key, reading::key_of(w, alt))[m];
            &&& formed(kinds, one)
            &&& kinds(one.0).ty == typing::place_ty(one.1)
            &&& one.1 is Key ==> likeness::named_once(typing::place_ty(one.1))
        }),
{
    let alt = scan.alternatives@[a];
    let ty = reading::key_of(w, alt);
    let both = reading::takes_key(w, meet(g, h), alt.key, ty);
    let own = reading::takes_key(w, h, alt.key, ty);
    typing::lemma_takes_key_less(w, meet(g, h), h, alt.key, ty);
    both.lemma_filter_contains(typing::missing(h), m);
    let x = choose|x: int| 0 <= x < own.len() && own[x] == both[m];
    lemma_taken(w, kinds, h, scan, a, x);
}

/// What known variables make of an expression, more variables make of it too.
proof fn lemma_thing_same(w: World, less: Sense, more: Sense, node: NodeId)
    requires
        extends(less, more),
        likeness::known(w, less, node),
    ensures
        reading::thing_of(w, less, node) == reading::thing_of(w, more, node),
    decreases node.0,
{
    if !w.cx.ast.constant(node) {
        match w.cx.ast.kind(node) {
            ExprKind::Var(symbol) => {
                assert(less(symbol) is Some);
            },
            ExprKind::Fact(_, _) => if let Some(row) = model::hoisted_row(w.hoisted, node) {
                assert(less(row) is Some);
            },
            ExprKind::Access(_, base) => if base.0 < node.0 {
                lemma_thing_same(w, less, more, base);
            },
            _ => {},
        }
    }
}

/// An alias in one run and in another.
#[verifier::rlimit(30)]
proof fn lemma_alias_step(
    w: World,
    kinds: Kinds,
    stmts: Seq<Stmt>,
    g: Found,
    h: Found,
    s: Sense,
    alias: Alias,
)
    requires
        two_runs(w, kinds, g.sense, h.sense, s),
        alias_ready(w, kinds, stmts, g.sense, alias),
        alias_ready(w, kinds, stmts, h.sense, alias),
        settled(h.pairs),
        ({
            let on = orders::on(w, Stmt::Alias(alias), g, arbitrary())->0;
            extends(on.sense, s) && settled(on.pairs)
        }),
    ensures
        ({
            let on = orders::on(w, Stmt::Alias(alias), h, arbitrary())->0;
            likeness::within(w, on.sense, s) && settled(on.pairs)
        }),
{
    let (gs, hs) = (g.sense, h.sense);
    let on = orders::on(w, Stmt::Alias(alias), g, arbitrary())->0;
    let more = orders::on(w, Stmt::Alias(alias), h, arbitrary())->0;
    let kind = choose|kind: Kind| #[trigger]
        typing::has_kind(w, kinds, alias.value, kind) && (if typing::compares(w, stmts, alias) {
            kind.form is Field
        } else {
            typing::pattern_typed(w, kinds, alias.pattern, kind)
        });
    lemma_stands(w, kinds, gs, alias.value, kind);
    lemma_stands(w, kinds, hs, alias.value, kind);
    let (x, y) = (
        reading::thing_of(w, gs, alias.value)->0,
        reading::thing_of(w, hs, alias.value)->0,
    );
    lemma_thing_same(w, gs, s, alias.value);
    likeness::lemma_thing_of(w, hs, s, alias.value);
    assert(likeness::like(w, y, x));
    if typing::compares(w, stmts, alias) {
        let var = w.cx.ast.kind(alias.pattern)->Var_0;
        assert(gs(var) is Some && hs(var) is Some);
        let (p, q) = (gs(var)->0, hs(var)->0);
        assert(on.pairs[g.pairs.len() as int] == (p, x));
        assert(s(var) == Some(p));
        lemma_like_same(w, q, y, p, x);
        assert forall|i: int| 0 <= i < more.pairs.len() implies reading::same(
            (#[trigger] more.pairs[i]).0,
            more.pairs[i].1,
        ) by {
            if i < h.pairs.len() {
                assert(more.pairs[i] == h.pairs[i]);
            }
        }
    } else {
        lemma_names(w, kinds, h, g, alias.pattern, y, x, kind);
        let names = model::bare_variables(w.cx, alias.pattern);
        assert forall|symbol: Symbol| (#[trigger] (more.sense)(symbol)) is Some implies (s(
            symbol,
        ) matches Some(z) && likeness::like(w, (more.sense)(symbol)->0, z)) by {
            assert(is_named(w, kinds, h, g, more, on, names, symbol));
            if names.contains(symbol) {
                assert((on.sense)(symbol) is Some);
            } else {
                assert(hs(symbol) is Some);
            }
        }
    }
}

/// Choices that come to an answer in one order get as far in another.
#[verifier::rlimit(30)]
proof fn lemma_transfer(
    w: World,
    kinds: Kinds,
    found: Found,
    stmts: Seq<Stmt>,
    one: Seq<usize>,
    other: Seq<usize>,
    c: Choices,
    k: nat,
)
    requires
        comparing(w, kinds, found, stmts, one, other),
        orders::offered(w, stmts, one, c),
        orders::reach(w, stmts, one, one.len(), found, c) matches Some(end) && reading::kept(
            w,
            end,
        ),
        k <= other.len(),
    ensures
        ({
            let end = orders::reach(w, stmts, one, one.len(), found, c)->0;
            orders::reach(w, stmts, other, k, found, c) matches Some(here) && likeness::within(
                w,
                here.sense,
                end.sense,
            ) && settled(here.pairs)
        }),
    decreases k,
{
    let end = orders::reach(w, stmts, one, one.len(), found, c)->0;
    let s = end.sense;
    assert(orders::offered(w, stmts, other, c)) by {
        assert forall|i: int| 0 <= i < other.len() implies (stmts[(
        #[trigger] other[i]) as int] matches Stmt::Scan(scan) ==> orders::choices(
            scan.alternatives@,
            w.facts,
        ).contains(c(other[i]))) by {
            orders::lemma_names_all(stmts.len(), one, other[i]);
            let j = choose|j: int| 0 <= j < one.len() && one[j] == other[i];
            assert(stmts[one[j] as int] == stmts[other[i] as int]);
        }
    }
    assert(settled(end.pairs)) by {
        assert forall|i: int| 0 <= i < end.pairs.len() implies reading::same(
            (#[trigger] end.pairs[i]).0,
            end.pairs[i].1,
        ) by {}
    }
    if k == 0 {
        lemma_reached_end(w, kinds, found, stmts, one, c, 0, one.len());
        lemma_within_extends(w, kinds, found.sense, s);
    } else {
        let j = (k - 1) as nat;
        lemma_transfer(w, kinds, found, stmts, one, other, c, j);
        let h = orders::reach(w, stmts, other, j, found, c)->0;
        let at = other[j as int];
        let stmt = stmts[at as int];
        orders::lemma_names_all(stmts.len(), one, at);
        let i = choose|i: int| 0 <= i < one.len() && one[i] == at;
        lemma_reached_end(w, kinds, found, stmts, one, c, i as nat, one.len());
        lemma_reached_end(w, kinds, found, stmts, one, c, i as nat + 1, one.len());
        let g = orders::reach(w, stmts, one, i as nat, found, c)->0;
        let on = orders::reach(w, stmts, one, i as nat + 1, found, c)->0;
        assert(orders::on(w, stmt, g, c(at)) == Some(on));
        lemma_reached(w, kinds, found, stmts, one, c, i as nat);
        lemma_reached(w, kinds, found, stmts, other, c, j);
        assert(satisfied(w, s));
        assert(two_runs(w, kinds, g.sense, h.sense, s));
        match stmt {
            Stmt::Scan(scan) => {
                lemma_offered(w, stmts, other, c, j as int);
                let alts = scan.alternatives@;
                let a = choose|a: int| 0 <= a < alts.len() && alts[a] == c(at).0;
                assert(evenly(w, g.sense, h.sense, scan)) by {
                    assert forall|symbol: Symbol| local(w, Stmt::Scan(scan), symbol) implies (
                    #[trigger] (g.sense)(symbol)) is Some == (h.sense)(symbol) is Some by {
                        assert(one[i] == other[j as int]);
                        assert(local(w, stmts[one[i] as int], symbol));
                        let x = standing(w, found.sense, stmts, one, i as nat);
                        let y = standing(w, found.sense, stmts, other, j);
                        assert((g.sense)(symbol) is Some == x(symbol) is Some);
                        assert((h.sense)(symbol) is Some == y(symbol) is Some);
                    }
                }
                lemma_scan_step(w, kinds, g, h, s, scan, a, c(at).1);
            },
            Stmt::Negate(tested) => lemma_denied(
                w,
                kinds,
                g.sense,
                h.sense,
                s,
                tested.alternatives@,
            ),
            Stmt::Alias(alias) => lemma_alias_step(w, kinds, stmts, g, h, s, alias),
            Stmt::Constrain(_) => {},
        }
    }
}

/// What stands for something in the end does not turn on the order.
proof fn lemma_bound_end(
    w: World,
    begun: Sense,
    stmts: Seq<Stmt>,
    order: Seq<usize>,
    k: nat,
    symbol: Symbol,
)
    requires
        k <= order.len(),
    ensures
        bound(w, begun, stmts, order, k, symbol) == (begun(symbol) is Some || exists|j: int|
            0 <= j < k && leaves(w, stmts[#[trigger] order[j] as int], symbol)),
    decreases k,
{
    if k > 0 {
        let n = (k - 1) as nat;
        lemma_bound_end(w, begun, stmts, order, n, symbol);
        if bound(w, begun, stmts, order, n, symbol) && begun(symbol) is None {
            let j = choose|j: int| 0 <= j < n && leaves(
                w,
                stmts[#[trigger] order[j] as int],
                symbol,
            );
            assert(leaves(w, stmts[order[j] as int], symbol));
        }
        if leaves(w, stmts[order[k - 1] as int], symbol) {
            assert(exists|j: int|
                0 <= j < k && leaves(w, stmts[#[trigger] order[j] as int], symbol));
        }
    }
}

proof fn lemma_same_end(
    w: World,
    begun: Sense,
    stmts: Seq<Stmt>,
    one: Seq<usize>,
    other: Seq<usize>,
    symbol: Symbol,
)
    requires
        reorder::is_order(stmts.len(), one),
        reorder::is_order(stmts.len(), other),
        bound(w, begun, stmts, one, one.len(), symbol),
    ensures
        bound(w, begun, stmts, other, other.len(), symbol),
{
    lemma_bound_end(w, begun, stmts, one, one.len(), symbol);
    lemma_bound_end(w, begun, stmts, other, other.len(), symbol);
    if begun(symbol) is None {
        let j = choose|j: int|
            0 <= j < one.len() && leaves(w, stmts[#[trigger] one[j] as int], symbol);
        assert(one[j] < stmts.len());
        orders::lemma_names_all(stmts.len(), other, one[j]);
        let i = choose|i: int| 0 <= i < other.len() && other[i] == one[j];
        assert(leaves(w, stmts[other[i] as int], symbol));
    }
}

/// Choices that come to an answer in one order come to the same row in another.
proof fn lemma_leaf(
    w: World,
    kinds: Kinds,
    found: Found,
    stmts: Seq<Stmt>,
    one: Seq<usize>,
    other: Seq<usize>,
    c: Choices,
)
    requires
        comparing(w, kinds, found, stmts, one, other),
        orders::offered(w, stmts, one, c),
        orders::reach(w, stmts, one, one.len(), found, c) matches Some(end) && reading::kept(
            w,
            end,
        ),
    ensures
        orders::leaf(w, stmts, one, found)(c) == orders::leaf(w, stmts, other, found)(c),
        orders::reach(w, stmts, other, other.len(), found, c) matches Some(end) && reading::kept(
            w,
            end,
        ),
{
    let (n, m) = (one.len(), other.len());
    let end = orders::reach(w, stmts, one, n, found, c)->0;
    lemma_transfer(w, kinds, found, stmts, one, other, c, m);
    let last = orders::reach(w, stmts, other, m, found, c)->0;
    lemma_offered_all(w, stmts, one, other, c);
    lemma_reached(w, kinds, found, stmts, one, c, n);
    lemma_reached(w, kinds, found, stmts, other, c, m);
    let (x, y) = (
        standing(w, found.sense, stmts, one, n),
        standing(w, found.sense, stmts, other, m),
    );
    assert forall|symbol: Symbol| likeness::alike(
        w,
        #[trigger] (last.sense)(symbol),
        (end.sense)(symbol),
    ) by {
        assert((last.sense)(symbol) is Some == y(symbol) is Some);
        assert((end.sense)(symbol) is Some == x(symbol) is Some);
        if x(symbol) is Some {
            lemma_same_end(w, found.sense, stmts, one, other, symbol);
        }
    }
    let head = w.cx.ast.root().head;
    lemma_said_more(w, y, last.sense, head);
    lemma_equal_value(w, last.sense, end.sense, head);
    assert(settled(end.pairs)) by {
        assert forall|i: int| 0 <= i < end.pairs.len() implies reading::same(
            (#[trigger] end.pairs[i]).0,
            end.pairs[i].1,
        ) by {}
    }
    lemma_equal_kept(w, last, end);
}

proof fn lemma_offered_all(
    w: World,
    stmts: Seq<Stmt>,
    one: Seq<usize>,
    other: Seq<usize>,
    c: Choices,
)
    requires
        reorder::is_order(stmts.len(), one),
        reorder::is_order(stmts.len(), other),
        orders::offered(w, stmts, one, c),
    ensures
        orders::offered(w, stmts, other, c),
{
    assert forall|i: int| 0 <= i < other.len() implies (stmts[(
    #[trigger] other[i]) as int] matches Stmt::Scan(scan) ==> orders::choices(
        scan.alternatives@,
        w.facts,
    ).contains(c(other[i]))) by {
        orders::lemma_names_all(stmts.len(), one, other[i]);
        let j = choose|j: int| 0 <= j < one.len() && one[j] == other[i];
        assert(stmts[one[j] as int] == stmts[other[i] as int]);
    }
}

pub proof fn lemma_said_more(w: World, less: Sense, more: Sense, node: NodeId)
    requires
        same_vars(more, less),
        said(w, less, node),
    ensures
        said(w, more, node),
    decreases node.0,
{
    assert(typing::covers(less, more)) by {
        assert forall|symbol: Symbol| (#[trigger] less(symbol)) is Some implies more(
            symbol,
        ) is Some by {
            assert(more(symbol) is Some == less(symbol) is Some);
        }
    }
    match w.cx.ast.kind(node) {
        ExprKind::Record(fields) => {
            assert forall|i: int|
                0 <= i < fields@.len() && (#[trigger] fields@[i]).1.0 < node.0 implies said(
                w,
                more,
                fields@[i].1,
            ) by {
                lemma_said_more(w, less, more, fields@[i].1);
            }
        },
        _ => lemma_known_more(w, less, more, node),
    }
}

/// A body has the same rows in every order that binds before it reads, each as often: the
/// order in which the statements are read is no part of what they mean.
///
/// A variable that not every alternative of a scan names stands for something before the scan
/// in both orders, or in neither.
pub proof fn law_a_join_means_the_same_in_every_order(
    w: World,
    kinds: Kinds,
    found: Found,
    stmts: Seq<Stmt>,
    one: Seq<usize>,
    other: Seq<usize>,
)
    requires
        comparing(w, kinds, found, stmts, one, other),
    ensures
        orders::rows(w, reading::meant(w, stmts, one, found)) == orders::rows(
            w,
            reading::meant(w, stmts, other, found),
        ),
{
    assert(unmixed(w, found.sense, stmts, other, one)) by {
        assert forall|i: int, j: int, symbol: Symbol|
            #![trigger other[i], one[j], local(w, stmts[other[i] as int], symbol)]
            0 <= i < other.len() && 0 <= j < one.len() && other[i] == one[j] && local(
                w,
                stmts[other[i] as int],
                symbol,
            ) implies bound(w, found.sense, stmts, other, i as nat, symbol) == bound(
            w,
            found.sense,
            stmts,
            one,
            j as nat,
            symbol,
        ) by {
            assert(local(w, stmts[one[j] as int], symbol));
        }
    }
    assert(comparing(w, kinds, found, stmts, other, one));
    assert forall|c: Choices| orders::offered(w, stmts, one, c) implies #[trigger] orders::leaf(
        w,
        stmts,
        one,
        found,
    )(c) == orders::leaf(w, stmts, other, found)(c) by {
        lemma_offered_all(w, stmts, one, other, c);
        let (x, y) = (
            orders::reach(w, stmts, one, one.len(), found, c),
            orders::reach(w, stmts, other, other.len(), found, c),
        );
        if x matches Some(end) && reading::kept(w, end) {
            lemma_leaf(w, kinds, found, stmts, one, other, c);
        } else if y matches Some(end) && reading::kept(w, end) {
            lemma_leaf(w, kinds, found, stmts, other, one, c);
        }
    }
    orders::lemma_same_rows(w, stmts, one, other, found);
}

} // verus!
