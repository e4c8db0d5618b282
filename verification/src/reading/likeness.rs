//! Things that have the same value, and what is read the same of them.
use vstd::prelude::*;

use super::typing;
use super::typing::Kinds;
use super::{Place, Sense, Thing, World};
use crate::error::ApertureError;
use crate::flatten::matching;
use crate::flatten::model;
use crate::flatten::model::Alt;
use crate::flatten::running;
use crate::layout;
use crate::plan::{Fact, Route};
use crate::reading;
use crate::schema;
use crate::schema::{PredicateId, PredicateTy, Symbol};
use crate::syntax::{ExprKind, FieldRef, NodeId};
use crate::tuple;
use crate::tuple::Datum;

verus! {

// ---- like things ------------------------------------------------------------

/// Two fields hold one value of a type.
pub open spec fn same_field(
    w: World,
    a: Fact,
    p: Route,
    b: Fact,
    q: Route,
    ty: PredicateTy,
) -> bool {
    exists|d: Datum|
        #[trigger] layout::holds_at(a.key(), p, d) && layout::holds_at(b.key(), q, d)
            && tuple::fits(w.names, d, ty)
}

/// Two keys hold one value of a type.
pub open spec fn same_key(w: World, a: Fact, b: Fact, ty: PredicateTy) -> bool {
    exists|d: Datum|
        #[trigger] layout::key_is(w.names, a.key(), ty, d) && layout::key_is(
            w.names,
            b.key(),
            ty,
            d,
        )
}

/// Two things have the same value and the same type.
pub open spec fn like(w: World, x: Thing, y: Thing) -> bool {
    match (x, y) {
        (
            Thing::Field { fact: a, path: p, ty },
            Thing::Field { fact: b, path: q, ty: other },
        ) => ty == other && same_field(
            w,
            a,
            p,
            b,
            q,
            ty,
        ),
        (Thing::Key { fact: a, ty }, Thing::Key { fact: b, ty: other }) => ty == other && same_key(
            w,
            a,
            b,
            ty,
        ),
        (Thing::Row { fact, predicate }, Thing::Row { .. }) => x == y && (predicate matches Some(
            p,
        ) ==> matching::of_predicate(w.cx, w.names, fact, p)),
        (Thing::Const(node), Thing::Const(_)) => x == y && w.cx.ast.constant(node),
        _ => x == y,
    }
}

/// Both, or neither.
pub open spec fn alike(w: World, x: Option<Thing>, y: Option<Thing>) -> bool {
    match (x, y) {
        (Some(a), Some(b)) => like(w, a, b),
        (None, None) => true,
        _ => false,
    }
}

pub proof fn lemma_like_back(w: World, x: Thing, y: Thing)
    requires
        like(w, x, y),
    ensures
        like(w, y, x),
{
    match (x, y) {
        (
            Thing::Field { fact: a, path: p, ty },
            Thing::Field { fact: b, path: q, ty: other },
        ) => {
            let d = choose|d: Datum|
                #[trigger] layout::holds_at(a.key(), p, d) && layout::holds_at(b.key(), q, d)
                    && tuple::fits(w.names, d, ty);
            assert(layout::holds_at(b.key(), q, d));
            assert(same_field(w, b, q, a, p, ty));
        },
        (Thing::Key { fact: a, ty }, Thing::Key { fact: b, ty: other }) => {
            let d = choose|d: Datum|
                #[trigger] layout::key_is(w.names, a.key(), ty, d) && layout::key_is(
                    w.names,
                    b.key(),
                    ty,
                    d,
                );
            assert(layout::key_is(w.names, b.key(), ty, d));
            assert(same_key(w, b, a, ty));
        },
        _ => {},
    }
}

/// A value stands for like things alike.
pub proof fn lemma_like_is(w: World, x: Thing, y: Thing, v: Datum)
    requires
        like(w, x, y),
    ensures
        reading::thing_is(x, v) == reading::thing_is(y, v),
{
    if let (Thing::Field { fact: a, path: p, ty }, Thing::Field { fact: b, path: q, .. }) = (x, y) {
        let d = choose|d: Datum|
            #[trigger] layout::holds_at(a.key(), p, d) && layout::holds_at(b.key(), q, d)
                && tuple::fits(w.names, d, ty);
        assert(tuple::path_bytes(a.key(), p) == Ok::<Seq<u8>, ApertureError>(tuple::enc(d)));
        assert(tuple::path_bytes(b.key(), q) == Ok::<Seq<u8>, ApertureError>(tuple::enc(d)));
    }
}

/// Like references name the same fact.
pub proof fn lemma_like_followed(w: World, x: Thing, y: Thing)
    requires
        running::closed(w),
        like(w, x, y),
    ensures
        alike(w, reading::followed(w, x), reading::followed(w, y)),
{
    if let (
        Thing::Field { fact: a, path: p, ty: PredicateTy::Fact(predicate) },
        Thing::Field { fact: b, path: q, .. },
    ) = (x, y) {
        let d = choose|d: Datum|
            #[trigger] layout::holds_at(a.key(), p, d) && layout::holds_at(b.key(), q, d)
                && tuple::fits(w.names, d, PredicateTy::Fact(predicate));
        let id = d->FactRef_0;
        matching::lemma_named(id, predicate);
        assert(tuple::path_bytes(a.key(), p) == Ok::<Seq<u8>, ApertureError>(tuple::enc_fact(id)));
        assert(tuple::path_bytes(b.key(), q) == Ok::<Seq<u8>, ApertureError>(tuple::enc_fact(id)));
        if (w.keys)(id) is Some {
            assert(PredicateId(id.predicate_of() as u32) == predicate);
        }
    }
}

/// One field of a like key, and of a like record.
pub proof fn lemma_like_piece(w: World, x: Thing, y: Thing, name: Symbol)
    requires
        running::closed(w),
        like(w, x, y),
    ensures
        alike(w, reading::piece(w, x, name), reading::piece(w, y, name)),
{
    match (x, y) {
        (Thing::Row { fact, predicate }, _) => lemma_row_piece(w, fact, predicate, name),
        (Thing::Key { fact: a, ty }, Thing::Key { fact: b, .. }) => {
            if let Some((idx, inner)) = model::field_of(ty, name) {
                lemma_key_piece(w, a, b, ty, name);
            }
        },
        (Thing::Field { fact: a, path: p, ty }, Thing::Field { fact: b, path: q, .. }) => {
            match ty {
                PredicateTy::Record(tys) => if let Some((idx, inner)) = model::field_of(ty, name) {
                    let d = choose|d: Datum|
                        #[trigger] layout::holds_at(a.key(), p, d) && layout::holds_at(
                            b.key(),
                            q,
                            d,
                        ) && tuple::fits(w.names, d, ty);
                    schema::lemma_field_position(tys@, name->Schema_0);
                    assert(tys.len() == tys@.len());
                    let (ps, qs) = (p.inner().push(idx), q.inner().push(idx));
                    let (pp, qq) = (Route::of(p.top(), ps), Route::of(q.top(), qs));
                    layout::lemma_deeper(a.key(), p, d, pp, idx);
                    layout::lemma_deeper(b.key(), q, d, qq, idx);
                    let v = d->Record_0[idx as int].1;
                    assert(layout::holds_at(a.key(), pp, v));
                    assert(tuple::fits(w.names, v, inner));
                    assert(same_field(w, a, pp, b, qq, inner));
                },
                PredicateTy::Fact(_) => {
                    lemma_like_followed(w, x, y);
                    if let Some(Thing::Row { fact, predicate }) = reading::followed(w, x) {
                        lemma_row_piece(w, fact, predicate, name);
                    }
                },
                _ => {},
            }
        },
        (Thing::Const(folded), _) => {
            if let ExprKind::Record(fields) = w.cx.ast.kind(folded) {
                matching::lemma_piece_constant(w.cx, folded, fields@, name);
            }
        },
        _ => {},
    }
}

proof fn lemma_key_piece(
    w: World,
    a: Fact,
    b: Fact,
    ty: PredicateTy,
    name: Symbol,
)
    requires
        same_key(w, a, b, ty),
        model::field_of(ty, name) is Some,
    ensures
        ({
            let (idx, inner) = model::field_of(ty, name)->0;
            let path = Route::of(idx, Seq::empty());
            &&& same_field(w, a, path, b, path, inner)
        }),
{
    let (idx, inner) = model::field_of(ty, name)->0;
    let d = choose|d: Datum|
        #[trigger] layout::key_is(w.names, a.key(), ty, d) && layout::key_is(
            w.names,
            b.key(),
            ty,
            d,
        );
    let tys = ty->Record_0;
    schema::lemma_field_position(tys@, name->Schema_0);
    assert(tys.len() == tys@.len());
    let none = Seq::<usize>::empty();
    let path = Route::of(idx, none);
    layout::lemma_top(a.key(), d, path);
    layout::lemma_top(b.key(), d, path);
    let v = d->Record_0[idx as int].1;
    assert(layout::holds_at(a.key(), path, v) && tuple::fits(w.names, v, inner));
}

proof fn lemma_row_piece(
    w: World,
    fact: Fact,
    predicate: Option<PredicateId>,
    name: Symbol,
)
    requires
        predicate matches Some(p) ==> matching::of_predicate(w.cx, w.names, fact, p),
    ensures
        alike(
            w,
            reading::row_piece(w, fact, predicate, name),
            reading::row_piece(w, fact, predicate, name),
        ),
{
    if let Some(p) = predicate {
        if let Some(declared) = w.cx.schema.predicate(p) {
            if model::field_of(declared.key, name) is Some {
                let d = choose|d: Datum|
                    #[trigger] layout::key_is(w.names, fact.key(), declared.key, d);
                assert(layout::key_is(w.names, fact.key(), declared.key, d));
                assert(same_key(w, fact, fact, declared.key));
                lemma_key_piece(w, fact, fact, declared.key, name);
            }
        }
    }
}

// ---- like senses ------------------------------------------------------------

/// One sense stands for no more than another does, and alike.
pub open spec fn within(w: World, less: Sense, more: Sense) -> bool {
    forall|symbol: Symbol|
        (#[trigger] less(symbol)) matches Some(x) ==> (more(symbol) matches Some(y) && like(
            w,
            x,
            y,
        ))
}

/// Everything an expression reads stands for something.
pub open spec fn known(w: World, sense: Sense, node: NodeId) -> bool
    decreases node.0,
{
    match w.cx.ast.kind(node) {
        ExprKind::Var(symbol) => sense(symbol) is Some,
        ExprKind::Fact(_, _) => model::hoisted_row(w.hoisted, node) matches Some(row) ==> sense(
            row,
        ) is Some,
        ExprKind::Access(_, base) => base.0 < node.0 ==> known(w, sense, base),
        _ => true,
    }
}

/// Everything a pattern for a type reads, but for the variables it may be the first to name.
pub open spec fn covered(w: World, sense: Sense, node: NodeId, ty: PredicateTy) -> bool
    decreases node.0,
{
    match w.cx.ast.kind(node) {
        ExprKind::Var(_) => true,
        ExprKind::Record(fields) => match ty {
            PredicateTy::Record(tys) => forall|i: int|
                0 <= i < tys@.len() ==> (model::field_pattern(
                    fields@,
                    Symbol::Schema((#[trigger] tys@[i]).0),
                ) matches Some(inner) ==> inner.0 < node.0 ==> covered(w, sense, inner, tys@[i].1)),
            _ => true,
        },
        _ => known(w, sense, node),
    }
}

/// An expression stands for like things.
pub proof fn lemma_thing_of(w: World, less: Sense, more: Sense, node: NodeId)
    requires
        running::closed(w),
        within(w, less, more),
        known(w, less, node),
    ensures
        alike(w, reading::thing_of(w, less, node), reading::thing_of(w, more, node)),
    decreases node.0,
{
    if !w.cx.ast.constant(node) {
        match w.cx.ast.kind(node) {
            ExprKind::Var(symbol) => {
                assert(less(symbol) is Some);
            },
            ExprKind::Fact(_, _) => {
                if let Some(row) = model::hoisted_row(w.hoisted, node) {
                    assert(less(row) is Some);
                }
            },
            ExprKind::Access(field, base) => if base.0 < node.0 {
                lemma_thing_of(w, less, more, base);
                if let (Some(x), Some(y)) = (
                    reading::thing_of(w, less, base),
                    reading::thing_of(w, more, base),
                ) {
                    lemma_like_followed(w, x, y);
                    if let (FieldRef::Key(name), Some(a), Some(b)) = (
                        field,
                        reading::followed(w, x),
                        reading::followed(w, y),
                    ) {
                        lemma_like_piece(w, a, b, name);
                    }
                }
            },
            _ => {},
        }
    }
}

// ---- what a pattern matches, read with more bound ---------------------------

/// What the larger of two senses adds at variables that patterns take: fields of the types
/// variables have, whose values are allowed, and whole keys.
pub open spec fn adds(w: World, kinds: Kinds, less: Sense, more: Sense, symbol: Symbol) -> bool {
    less(symbol) is None && typing::loose(kinds(symbol)) ==> (more(symbol) matches Some(y)
        ==> added(w, kinds, symbol, y))
}

/// Something a pattern takes, of the kind its variable has.
pub open spec fn added(w: World, kinds: Kinds, symbol: Symbol, y: Thing) -> bool {
    if kinds(symbol).form is Key {
        y matches Thing::Key { fact, ty } && ty == kinds(symbol).ty && same_key(w, fact, fact, ty)
    } else {
        y matches Thing::Field { fact, path, ty } && ty == kinds(symbol).ty && allowed_at(
            w,
            fact,
            path,
            ty,
            symbol,
        )
    }
}

/// A field holds a value of its type that is allowed.
pub open spec fn allowed_at(
    w: World,
    fact: Fact,
    path: Route,
    ty: PredicateTy,
    symbol: Symbol,
) -> bool {
    exists|d: Datum|
        #[trigger] layout::holds_at(fact.key(), path, d) && tuple::fits(w.names, d, ty)
            && reading::allowed(w, symbol, d)
}

/// No two fields of a record type have one name.
pub open spec fn named_once(ty: PredicateTy) -> bool {
    ty matches PredicateTy::Record(tys) ==> forall|i: int, j: int|
        0 <= i < j < tys@.len() ==> (#[trigger] tys@[i]).0 != (#[trigger] tys@[j]).0
}

/// Everything that another sense has is taken at a place of the form and the type its
/// variable has.
pub open spec fn fitting(kinds: Kinds, taken: Seq<(Symbol, Place)>, more: Sense) -> bool {
    forall|i: int|
        0 <= i < taken.len() && more((#[trigger] taken[i]).0) is Some ==> typing::loose(kinds(taken[i].0)) && kinds(
            taken[i].0,
        ).ty == typing::place_ty(taken[i].1) && (kinds(taken[i].0).form is Key
            <==> taken[i].1 is Key) && (taken[i].1 is Key ==> named_once(
            typing::place_ty(taken[i].1),
        ))
}

/// What was taken is like what another sense has.
pub open spec fn agreeing(
    w: World,
    fact: Fact,
    taken: Seq<(Symbol, Place)>,
    sense: Sense,
) -> bool {
    forall|i: int|
        0 <= i < taken.len() ==> (sense((#[trigger] taken[i]).0) matches Some(y) ==> like(
            w,
            reading::thing_at(fact, taken[i].1),
            y,
        ))
}

/// One sense within another, which adds fields whose values are allowed.
pub open spec fn compared(
    w: World,
    kinds: Kinds,
    less: Sense,
    more: Sense,
) -> bool {
    &&& running::closed(w)
    &&& within(w, less, more)
    &&& forall|symbol: Symbol| #[trigger] adds(w, kinds, less, more, symbol)
}

/// A path leads to a value of a type.
pub open spec fn held(
    w: World,
    fact: Fact,
    ty: PredicateTy,
    path: Route,
    v: Datum,
) -> bool {
    &&& layout::holds_at(fact.key(), path, v)
    &&& tuple::fits(w.names, v, ty)
}

proof fn lemma_agreeing_more(
    w: World,
    fact: Fact,
    first: Seq<(Symbol, Place)>,
    second: Seq<(Symbol, Place)>,
    sense: Sense,
)
    ensures
        agreeing(w, fact, first + second, sense) == (agreeing(w, fact, first, sense)
            && agreeing(w, fact, second, sense)),
{
    let both = first + second;
    if agreeing(w, fact, both, sense) {
        assert forall|i: int| 0 <= i < first.len() implies (sense(
            (#[trigger] first[i]).0,
        ) matches Some(y) ==> like(w, reading::thing_at(fact, first[i].1), y)) by {
            assert(both[i] == first[i]);
        }
        assert forall|i: int| 0 <= i < second.len() implies (sense(
            (#[trigger] second[i]).0,
        ) matches Some(y) ==> like(w, reading::thing_at(fact, second[i].1), y)) by {
            assert(both[first.len() + i] == second[i]);
        }
    }
    if agreeing(w, fact, first, sense) && agreeing(w, fact, second, sense) {
        assert forall|i: int| 0 <= i < both.len() implies (sense(
            (#[trigger] both[i]).0,
        ) matches Some(y) ==> like(w, reading::thing_at(fact, both[i].1), y)) by {
            if i < first.len() {
                assert(both[i] == first[i]);
            } else {
                assert(both[i] == second[i - first.len()]);
            }
        }
    }
}

proof fn lemma_fitting_more(
    kinds: Kinds,
    first: Seq<(Symbol, Place)>,
    second: Seq<(Symbol, Place)>,
    more: Sense,
)
    requires
        fitting(kinds, first + second, more),
    ensures
        fitting(kinds, first, more),
        fitting(kinds, second, more),
{
    let both = first + second;
    assert forall|i: int| 0 <= i < first.len() implies #[trigger] first[i] == both[i] by {}
    assert forall|i: int| 0 <= i < second.len() implies #[trigger] second[i] == both[
        first.len() + i] by {}
}

/// A variable that only the larger sense has.
proof fn lemma_added(
    w: World,
    fact: Fact,
    ty: PredicateTy,
    path: Route,
    v: Datum,
    symbol: Symbol,
    y: Thing,
)
    requires
        held(w, fact, ty, path, v),
        y is Field,
        y->Field_ty == ty,
        allowed_at(w, y->Field_fact, y->Field_path, ty, symbol),
    ensures
        reading::thing_is(y, v) == (reading::allowed(w, symbol, v) && like(
            w,
            Thing::Field { fact, path, ty },
            y,
        )),
{
    let (other, at) = (y->Field_fact, y->Field_path);
    let d = choose|d: Datum|
        #[trigger] layout::holds_at(other.key(), at, d) && tuple::fits(w.names, d, ty)
            && reading::allowed(w, symbol, d);
    assert(tuple::path_bytes(other.key(), at) == Ok::<Seq<u8>, ApertureError>(tuple::enc(d)));
    if reading::thing_is(y, v) {
        matching::lemma_same_value(w.names, d, v, ty);
        assert(layout::holds_at(fact.key(), path, v) && layout::holds_at(other.key(), at, v));
        assert(same_field(w, fact, path, other, at, ty));
    }
    if like(w, Thing::Field { fact, path, ty }, y) {
        let e = choose|e: Datum|
            #[trigger] layout::holds_at(fact.key(), path, e) && layout::holds_at(
                other.key(),
                at,
                e,
            ) && tuple::fits(w.names, e, ty);
        assert(tuple::enc(e) == tuple::enc(v));
        assert(tuple::enc(e) == tuple::enc(d));
    }
}

proof fn lemma_constant_covered(w: World, sense: Sense, node: NodeId, ty: PredicateTy)
    requires
        w.cx.ast.constant(node),
    ensures
        covered(w, sense, node, ty),
    decreases node.0,
{
    if let (ExprKind::Record(fields), PredicateTy::Record(tys)) = (w.cx.ast.kind(node), ty) {
        assert forall|i: int| 0 <= i < tys@.len() implies (model::field_pattern(
            fields@,
            Symbol::Schema((#[trigger] tys@[i]).0),
        ) matches Some(inner) ==> inner.0 < node.0 ==> covered(w, sense, inner, tys@[i].1)) by {
            let name = Symbol::Schema(tys@[i].0);
            if let Some(inner) = model::field_pattern(fields@, name) {
                matching::lemma_piece_constant(w.cx, node, fields@, name);
                if inner.0 < node.0 {
                    lemma_constant_covered(w, sense, inner, tys@[i].1);
                }
            }
        }
    }
}

/// A pattern matches with more bound where it matches with less, and takes what the more
/// is like.
#[verifier::rlimit(30)]
pub proof fn lemma_means(
    w: World,
    kinds: Kinds,
    less: Sense,
    more: Sense,
    fact: Fact,
    node: NodeId,
    ty: PredicateTy,
    path: Route,
    v: Datum,
)
    requires
        compared(w, kinds, less, more),
        held(w, fact, ty, path, v),
        covered(w, less, node, ty),
        fitting(kinds, reading::takes(w, less, node, ty, path), more),
    ensures
        reading::means(w, more, node, ty, v) == (reading::means(w, less, node, ty, v)
            && agreeing(w, fact, reading::takes(w, less, node, ty, path), more)),
    decreases model::rank(w.cx, node), node.0, 1nat, 0nat,
{
    match w.cx.ast.kind(node) {
        ExprKind::Wildcard | ExprKind::Lit(_) | ExprKind::Prefix(_) => {},
        ExprKind::Record(fields) => {
            if let (PredicateTy::Record(tys), Datum::Record(values)) = (ty, v) {
                lemma_means_fields(
                    w,
                    kinds,
                    less,
                    more,
                    fact,
                    node,
                    fields@,
                    ty,
                    path,
                    v,
                    tys@.len(),
                );
            }
        },
        kind => {
            if kind is Var && less(kind->Var_0) is None {
                let symbol = kind->Var_0;
                let taken = reading::takes(w, less, node, ty, path);
                assert(taken[0] == (symbol, Place::Field(path, ty)));
                assert(adds(w, kinds, less, more, symbol));
                if let Some(y) = more(symbol) {
                    assert(more(taken[0].0) is Some);
                    assert(kinds(taken[0].0).ty == ty);
                    lemma_added(w, fact, ty, path, v, symbol, y);
                    if agreeing(w, fact, taken, more) {
                        assert(more(taken[0].0) is Some);
                    }
                    if like(w, Thing::Field { fact, path, ty }, y) {
                        assert(agreeing(w, fact, taken, more));
                    }
                }
            } else {
                assert(known(w, less, node));
                lemma_thing_of(w, less, more, node);
                if let (Some(x), Some(y)) = (
                    reading::thing_of(w, less, node),
                    reading::thing_of(w, more, node),
                ) {
                    lemma_like_is(w, x, y, v);
                    if let Thing::Const(folded) = x {
                        lemma_constant_covered(w, less, folded, ty);
                        matching::lemma_constant_takes(w, less, folded, ty, path);
                        lemma_means(
                            w,
                            kinds,
                            less,
                            more,
                            fact,
                            folded,
                            ty,
                            path,
                            v,
                        );
                    }
                }
            }
        },
    }
}

#[verifier::rlimit(30)]
proof fn lemma_means_fields(
    w: World,
    kinds: Kinds,
    less: Sense,
    more: Sense,
    fact: Fact,
    node: NodeId,
    fields: Seq<(Symbol, NodeId)>,
    ty: PredicateTy,
    path: Route,
    v: Datum,
    k: nat,
)
    requires
        compared(w, kinds, less, more),
        held(w, fact, ty, path, v),
        ty is Record,
        k <= ty->Record_0@.len(),
        w.cx.ast.kind(node) matches ExprKind::Record(all) && all@ == fields,
        covered(w, less, node, ty),
        fitting(
            kinds,
            reading::takes_fields(w, less, node, fields, ty->Record_0@, k, path),
            more,
        ),
    ensures
        reading::means_fields(w, more, node, fields, ty->Record_0@, v->Record_0, k) == (
        reading::means_fields(w, less, node, fields, ty->Record_0@, v->Record_0, k) && agreeing(
            w,
            fact,
            reading::takes_fields(w, less, node, fields, ty->Record_0@, k, path),
            more,
        )),
    decreases model::rank(w.cx, node), node.0, 0nat, k,
{
    let tys = ty->Record_0;
    if k > 0 {
        let j = (k - 1) as nat;
        let name = Symbol::Schema(tys@[k - 1].0);
        let first = reading::takes_fields(w, less, node, fields, tys@, j, path);
        let none = Seq::<(Symbol, Place)>::empty();
        let inner = Route::of(path.top(), path.inner().push((k - 1) as usize));
        let second = match model::field_pattern(fields, name) {
            Some(piece) => if model::below(w.cx, node, piece) {
                reading::takes(w, less, piece, tys@[k - 1].1, inner)
            } else {
                none
            },
            None => none,
        };
        assert(reading::takes_fields(w, less, node, fields, tys@, k, path) == first + second);
        lemma_fitting_more(kinds, first, second, more);
        lemma_agreeing_more(w, fact, first, second, more);
        lemma_means_fields(
            w,
            kinds,
            less,
            more,
            fact,
            node,
            fields,
            ty,
            path,
            v,
            j,
        );
        if let Some(piece) = model::field_pattern(fields, name) {
            if model::below(w.cx, node, piece) {
                let idx = (k - 1) as usize;
                assert(tys.len() == tys@.len());
                let steps = path.inner().push(idx);
                layout::lemma_deeper(fact.key(), path, v, inner, idx);
                assert(covered(w, less, piece, tys@[k - 1].1));
                lemma_means(
                    w,
                    kinds,
                    less,
                    more,
                    fact,
                    piece,
                    tys@[k - 1].1,
                    inner,
                    v->Record_0[k - 1].1,
                );
            }
        }
    }
}

#[verifier::rlimit(30)]
proof fn lemma_means_top(
    w: World,
    kinds: Kinds,
    less: Sense,
    more: Sense,
    fact: Fact,
    node: NodeId,
    ty: PredicateTy,
    v: Datum,
    k: nat,
)
    requires
        compared(w, kinds, less, more),
        w.cx.ast.wf(),
        w.cx.ast.has(node),
        w.cx.ast.kind(node) is Record,
        layout::key_is(w.names, fact.key(), ty, v),
        ty is Record,
        k <= ty->Record_0@.len(),
        covered(w, less, node, ty),
        fitting(
            kinds,
            reading::takes_top(w, less, w.cx.ast.kind(node)->Record_0@, ty->Record_0@, k),
            more,
        ),
    ensures
        ({
            let fields = w.cx.ast.kind(node)->Record_0@;
            let tys = ty->Record_0@;
            reading::means_fields(w, more, node, fields, tys, v->Record_0, k) == (
            reading::means_fields(w, less, node, fields, tys, v->Record_0, k) && agreeing(
                w,
                fact,
                reading::takes_top(w, less, fields, tys, k),
                more,
            ))
        }),
    decreases k,
{
    let fields = w.cx.ast.kind(node)->Record_0@;
    let tys = ty->Record_0;
    if k > 0 {
        let j = (k - 1) as nat;
        let name = Symbol::Schema(tys@[k - 1].0);
        let first = reading::takes_top(w, less, fields, tys@, j);
        let none = Seq::<(Symbol, Place)>::empty();
        let steps = Seq::<usize>::empty();
        let path = Route::of((k - 1) as usize, steps);
        let second = match model::field_pattern(fields, name) {
            Some(piece) => reading::takes(w, less, piece, tys@[k - 1].1, path),
            None => none,
        };
        assert(reading::takes_top(w, less, fields, tys@, k) == first + second);
        lemma_fitting_more(kinds, first, second, more);
        lemma_agreeing_more(w, fact, first, second, more);
        lemma_means_top(w, kinds, less, more, fact, node, ty, v, j);
        matching::lemma_below(w.cx, node, name);
        if let Some(piece) = model::field_pattern(fields, name) {
            assert(tys.len() == tys@.len());
            layout::lemma_top(fact.key(), v, path);
            matching::lemma_below(w.cx, node, name);
            assert(covered(w, less, piece, tys@[k - 1].1));
            lemma_means(
                w,
                kinds,
                less,
                more,
                fact,
                piece,
                tys@[k - 1].1,
                path,
                v->Record_0[k - 1].1,
            );
        }
    }
}

/// A field of a like thing is matched alike.
proof fn lemma_field_is(
    w: World,
    kinds: Kinds,
    less: Sense,
    more: Sense,
    fact: Fact,
    x: Option<Thing>,
    y: Option<Thing>,
    ty: PredicateTy,
    path: Route,
    v: Datum,
)
    requires
        compared(w, kinds, less, more),
        held(w, fact, ty, path, v),
        alike(w, x, y),
    ensures
        reading::field_is(w, less, x, ty, v) == reading::field_is(w, more, y, ty, v),
{
    if let (Some(a), Some(b)) = (x, y) {
        lemma_like_is(w, a, b, v);
        if let Thing::Const(folded) = a {
            lemma_constant_covered(w, less, folded, ty);
            matching::lemma_constant_takes(w, less, folded, ty, path);
            lemma_means(w, kinds, less, more, fact, folded, ty, path, v);
        }
    }
}

/// A whole key that only the larger sense has.
#[verifier::rlimit(30)]
proof fn lemma_added_key(w: World, more: Sense, fact: Fact, ty: PredicateTy, v: Datum, y: Thing)
    requires
        layout::key_is(w.names, fact.key(), ty, v),
        ty is Record,
        named_once(ty),
        y matches Thing::Key { fact: other, ty: of } && of == ty && same_key(w, other, other, ty),
    ensures
        (forall|i: int|
            0 <= i < ty->Record_0@.len() ==> reading::field_is(
                w,
                more,
                reading::piece(w, y, Symbol::Schema((#[trigger] ty->Record_0@[i]).0)),
                ty->Record_0@[i].1,
                v->Record_0[i].1,
            )) == like(w, Thing::Key { fact, ty }, y),
{
    let tys = ty->Record_0;
    let other = y->Key_fact;
    let e = choose|e: Datum|
        #[trigger] layout::key_is(w.names, other.key(), ty, e) && layout::key_is(
            w.names,
            other.key(),
            ty,
            e,
        );
    assert(tys.len() == tys@.len());
    assert forall|i: int| 0 <= i < tys@.len() implies reading::field_is(
        w,
        more,
        reading::piece(w, y, Symbol::Schema((#[trigger] tys@[i]).0)),
        tys@[i].1,
        v->Record_0[i].1,
    ) == (tuple::enc(e->Record_0[i].1) == tuple::enc(v->Record_0[i].1)) by {
        let name = tys@[i].0;
        schema::lemma_field_position(tys@, name);
        let path = Route::of(i as usize, Seq::empty());
        assert(model::field_of(ty, Symbol::Schema(name)) == Some((i as usize, tys@[i].1)));
        layout::lemma_top(other.key(), e, path);
    }
    if like(w, Thing::Key { fact, ty }, y) {
        let d = choose|d: Datum|
            #[trigger] layout::key_is(w.names, fact.key(), ty, d) && layout::key_is(
                w.names,
                other.key(),
                ty,
                d,
            );
        assert forall|i: int| 0 <= i < tys@.len() implies tuple::enc(e->Record_0[i].1)
            == tuple::enc(v->Record_0[i].1) by {
            let path = Route::of(i as usize, Seq::empty());
            layout::lemma_top(other.key(), e, path);
            layout::lemma_top(other.key(), d, path);
            layout::lemma_top(fact.key(), d, path);
            layout::lemma_top(fact.key(), v, path);
        }
    }
    if forall|i: int|
        0 <= i < tys@.len() ==> reading::field_is(
            w,
            more,
            reading::piece(w, y, Symbol::Schema((#[trigger] tys@[i]).0)),
            tys@[i].1,
            v->Record_0[i].1,
        ) {
        assert forall|i: int| 0 <= i < tys@.len() implies #[trigger] e->Record_0[i]
            == v->Record_0[i] by {
            let one = tys@[i];
            assert(reading::field_is(
                w,
                more,
                reading::piece(w, y, Symbol::Schema(tys@[i].0)),
                tys@[i].1,
                v->Record_0[i].1,
            ));
            matching::lemma_same_value(
                w.names,
                e->Record_0[i].1,
                v->Record_0[i].1,
                tys@[i].1,
            );
        }
        assert(e->Record_0 =~= v->Record_0);
        assert(e == v);
        assert(layout::key_is(w.names, fact.key(), ty, v) && layout::key_is(
            w.names,
            other.key(),
            ty,
            v,
        ));
        assert(same_key(w, fact, other, ty));
    }
}

/// A key pattern matches with more bound where it matches with less, and takes what the
/// more is like.
#[verifier::rlimit(30)]
pub proof fn lemma_means_key(
    w: World,
    kinds: Kinds,
    less: Sense,
    more: Sense,
    fact: Fact,
    node: NodeId,
    ty: PredicateTy,
    v: Datum,
)
    requires
        compared(w, kinds, less, more),
        w.cx.ast.wf(),
        w.cx.ast.has(node),
        layout::key_is(w.names, fact.key(), ty, v),
        covered(w, less, node, ty),
        fitting(kinds, reading::takes_key(w, less, node, ty), more),
    ensures
        reading::means_key(w, more, node, ty, v) == (reading::means_key(w, less, node, ty, v)
            && agreeing(w, fact, reading::takes_key(w, less, node, ty), more)),
{
    let none = Seq::<usize>::empty();
    match (ty, w.cx.ast.kind(node)) {
        (PredicateTy::Record(tys), ExprKind::Record(fields)) => lemma_means_top(
            w,
            kinds,
            less,
            more,
            fact,
            node,
            ty,
            v,
            tys@.len(),
        ),
        (PredicateTy::Record(_), ExprKind::Wildcard) => {},
        (PredicateTy::Record(tys), kind) => {
            if kind is Var && less(kind->Var_0) is None {
                let symbol = kind->Var_0;
                let taken = reading::takes_key(w, less, node, ty);
                assert(taken[0] == (symbol, Place::Key(ty)));
                assert(adds(w, kinds, less, more, symbol));
                if let Some(y) = more(symbol) {
                    assert(more(taken[0].0) is Some);
                    assert(kinds(taken[0].0).form is Key && named_once(ty));
                    lemma_added_key(w, more, fact, ty, v, y);
                    if agreeing(w, fact, taken, more) {
                        assert(more(taken[0].0) is Some);
                    }
                    if like(w, Thing::Key { fact, ty }, y) {
                        assert(agreeing(w, fact, taken, more));
                    }
                }
            } else {
                assert(known(w, less, node));
                lemma_thing_of(w, less, more, node);
                if let (Some(x), Some(y)) = (
                    reading::thing_of(w, less, node),
                    reading::thing_of(w, more, node),
                ) {
                    assert forall|i: int| 0 <= i < tys@.len() implies reading::field_is(
                        w,
                        less,
                        reading::piece(w, x, Symbol::Schema((#[trigger] tys@[i]).0)),
                        tys@[i].1,
                        v->Record_0[i].1,
                    ) == reading::field_is(
                        w,
                        more,
                        reading::piece(w, y, Symbol::Schema(tys@[i].0)),
                        tys@[i].1,
                        v->Record_0[i].1,
                    ) by {
                        let name = Symbol::Schema(tys@[i].0);
                        lemma_like_piece(w, x, y, name);
                        assert(tys.len() == tys@.len());
                        let path = Route::of(i as usize, none);
                        layout::lemma_top(fact.key(), v, path);
                        lemma_field_is(
                            w,
                            kinds,
                            less,
                            more,
                            fact,
                            reading::piece(w, x, name),
                            reading::piece(w, y, name),
                            tys@[i].1,
                            path,
                            v->Record_0[i].1,
                        );
                    }
                }
            }
        },
        _ => {
            let path = Route::of(0, none);
            layout::lemma_whole(fact.key(), v, path);
            lemma_means(w, kinds, less, more, fact, node, ty, path, v);
        },
    }
}

/// A fact is matched with more bound where it is matched with less, and what is taken of
/// it is like what the more has.
pub proof fn lemma_matches(
    w: World,
    kinds: Kinds,
    less: Sense,
    more: Sense,
    alt: Alt,
    fact: Fact,
)
    requires
        compared(w, kinds, less, more),
        w.cx.ast.wf(),
        w.cx.ast.has(alt.key),
        covered(w, less, alt.key, reading::key_of(w, alt)),
        fitting(kinds, reading::takes_key(w, less, alt.key, reading::key_of(w, alt)), more),
    ensures
        reading::matches(w, more, alt, fact) == (reading::matches(w, less, alt, fact) && agreeing(
            w,
            fact,
            reading::takes_key(w, less, alt.key, reading::key_of(w, alt)),
            more,
        )),
{
    let ty = reading::key_of(w, alt);
    if w.cx.schema.predicate(alt.predicate) is Some {
        if reading::matches(w, more, alt, fact) {
            let d = choose|d: Datum|
                #[trigger] layout::key_is(w.names, fact.key(), ty, d) && reading::means_key(
                    w,
                    more,
                    alt.key,
                    ty,
                    d,
                );
            lemma_means_key(w, kinds, less, more, fact, alt.key, ty, d);
            assert(layout::key_is(w.names, fact.key(), ty, d) && reading::means_key(
                w,
                less,
                alt.key,
                ty,
                d,
            ));
        }
        if reading::matches(w, less, alt, fact) {
            let d = choose|d: Datum|
                #[trigger] layout::key_is(w.names, fact.key(), ty, d) && reading::means_key(
                    w,
                    less,
                    alt.key,
                    ty,
                    d,
                );
            lemma_means_key(w, kinds, less, more, fact, alt.key, ty, d);
        }
    }
}

} // verus!
