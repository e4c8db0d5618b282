//! What a query means, read as it is written: nested loops over the facts, one statement
//! inside another, with no register, no seek and no filter.
//!
//! A variable has no value until a pattern first names it; from then on it stands for a
//! place in a fact, or for a constant.
use vstd::prelude::*;
use vstd::utf8::*;

use crate::answers;
use crate::bytes;
use crate::error::ApertureError;
use crate::flatten::model;
use crate::flatten::model::{Alt, Cx, Gen, Stmt};
use crate::layout;
use crate::plan::{Fact, FactId, Route};
use crate::schema::{NameKey, Names, PredicateId, PredicateTy, Symbol};
use crate::syntax::{ExprKind, FieldRef, Literal, NodeId};
use crate::tuple;
use crate::tuple::Datum;

pub mod joining;
pub mod laws;
pub mod likeness;
pub mod orders;
pub mod sameness;
pub mod typing;

verus! {

// ---- things -----------------------------------------------------------------

/// What a query is read against: the tree and the schema, the names, the row each nested
/// fact pattern was given, the prefixes variables are constrained by, the facts, and the
/// key and the value behind each id.
pub struct World {
    pub cx: Cx,
    pub names: Names,
    pub hoisted: Seq<(NodeId, Symbol)>,
    pub constraints: Seq<(Symbol, NodeId)>,
    pub facts: Seq<Fact>,
    pub keys: spec_fn(FactId) -> Option<Seq<u8>>,
    pub values: spec_fn(FactId) -> Option<Seq<u8>>,
}

/// What a variable or an expression stands for.
pub enum Thing {
    /// A whole fact.
    Row { fact: Fact, predicate: Option<PredicateId> },
    /// A fact's whole key.
    Key { fact: Fact, ty: PredicateTy },
    /// A field of a fact's key.
    Field { fact: Fact, path: Route, ty: PredicateTy },
    /// A fact's value.
    Value { fact: Fact, ty: PredicateTy },
    /// A constant, by its node.
    Const(NodeId),
}

/// What each variable stands for, if anything yet.
pub type Sense = spec_fn(Symbol) -> Option<Thing>;

/// A reference, as the fact it names. Anything else passes through.
pub open spec fn followed(w: World, thing: Thing) -> Option<Thing> {
    match thing {
        Thing::Field { fact, path, ty: PredicateTy::Fact(predicate) } => match tuple::path_bytes(
            fact.key(),
            path,
        ) {
            Ok(bytes) => match answers::named_by(bytes, predicate) {
                Ok(id) => match (w.keys)(id) {
                    Some(key) => Some(
                        Thing::Row {
                            fact: Fact { row: tuple::big_endian(predicate.0 as nat, 4) + key, id },
                            predicate: Some(predicate),
                        },
                    ),
                    None => None,
                },
                Err(_) => None,
            },
            Err(_) => None,
        },
        Thing::Value { ty: PredicateTy::Fact(_), .. } => None,
        _ => Some(thing),
    }
}

/// Key field `name` of a fact.
pub open spec fn row_piece(
    w: World,
    fact: Fact,
    predicate: Option<PredicateId>,
    name: Symbol,
) -> Option<Thing> {
    match predicate {
        Some(id) => match w.cx.schema.predicate(id) {
            Some(declared) => match model::field_of(declared.key, name) {
                Some((idx, ty)) => Some(
                    Thing::Field { fact, path: Route::of(idx, Seq::empty()), ty },
                ),
                None => None,
            },
            None => None,
        },
        None => None,
    }
}

/// One field of a thing.
pub open spec fn piece(w: World, thing: Thing, name: Symbol) -> Option<Thing> {
    match thing {
        Thing::Row { fact, predicate } => row_piece(w, fact, predicate, name),
        Thing::Key { fact, ty } => match model::field_of(ty, name) {
            Some((idx, ty)) => Some(
                Thing::Field { fact, path: Route::of(idx, Seq::empty()), ty },
            ),
            None => None,
        },
        Thing::Field { fact, path, ty } => match ty {
            PredicateTy::Record(_) => match model::field_of(ty, name) {
                Some((idx, inner)) => Some(
                    Thing::Field {
                        fact,
                        path: Route::of(path.top(), path.inner().push(idx)),
                        ty: inner,
                    },
                ),
                None => None,
            },
            PredicateTy::Fact(_) => match followed(w, thing) {
                Some(Thing::Row { fact: named, predicate }) => row_piece(
                    w,
                    named,
                    predicate,
                    name,
                ),
                _ => None,
            },
            _ => None,
        },
        Thing::Const(folded) => match w.cx.ast.kind(folded) {
            ExprKind::Record(fields) => match model::field_pattern(fields@, name) {
                Some(inner) => Some(Thing::Const(inner)),
                None => None,
            },
            _ => None,
        },
        Thing::Value { .. } => None,
    }
}

/// The value side of a fact, if its predicate has one.
pub open spec fn value_side(w: World, thing: Option<Thing>) -> Option<Thing> {
    match thing {
        Some(Thing::Row { fact, predicate: Some(id) }) => match w.cx.schema.predicate(id) {
            Some(declared) => match declared.value {
                Some(ty) => Some(Thing::Value { fact, ty }),
                None => None,
            },
            None => None,
        },
        _ => None,
    }
}

/// What an expression stands for.
pub open spec fn thing_of(w: World, sense: Sense, node: NodeId) -> Option<Thing>
    decreases node.0,
{
    if w.cx.ast.constant(node) {
        Some(Thing::Const(node))
    } else {
        match w.cx.ast.kind(node) {
            ExprKind::Var(symbol) => sense(symbol),
            ExprKind::Fact(_, _) => match model::hoisted_row(w.hoisted, node) {
                Some(row) => sense(row),
                None => None,
            },
            ExprKind::Access(field, base) => if base.0 < node.0 {
                match thing_of(w, sense, base) {
                    Some(thing) => match (field, followed(w, thing)) {
                        (FieldRef::Value, place) => value_side(w, place),
                        (FieldRef::Key(name), Some(place)) => piece(w, place, name),
                        (FieldRef::Key(_), None) => None,
                    },
                    None => None,
                }
            } else {
                None
            },
            _ => None,
        }
    }
}

// ---- what a pattern matches -------------------------------------------------

/// Whether a value is a string beginning with what `symbol` names.
pub open spec fn begins(names: Names, symbol: Symbol, v: Datum) -> bool {
    match (names.text(symbol), v) {
        (Some(text), Datum::Str(s)) => bytes::begins_with(encode_utf8(s), encode_utf8(text)),
        _ => false,
    }
}

/// Whether a value satisfies everything the body constrains `symbol` by.
pub open spec fn allowed(w: World, symbol: Symbol, v: Datum) -> bool {
    let patterns = model::patterns_of(w.constraints, symbol);
    forall|i: int|
        0 <= i < patterns.len() ==> (w.cx.ast.kind(#[trigger] patterns[i]) matches
            ExprKind::Prefix(text) && begins(w.names, text, v))
}

/// Whether a value is the one a thing has: the bytes of a field, or the id of a fact.
pub open spec fn thing_is(thing: Thing, v: Datum) -> bool {
    match thing {
        Thing::Field { fact, path, .. } => tuple::path_bytes(fact.key(), path) == Ok::<
            Seq<u8>,
            ApertureError,
        >(tuple::enc(v)),
        Thing::Row { fact, .. } => tuple::enc(v) == tuple::enc_fact(fact.id),
        _ => false,
    }
}

/// Whether a pattern matches a value of a type. A variable that stands for nothing yet
/// matches what its constraints allow; one that stands for something matches the value
/// that has. A literal of another type, which typechecking reports, asks for nothing.
pub open spec fn means(w: World, sense: Sense, node: NodeId, ty: PredicateTy, v: Datum) -> bool
    decreases model::rank(w.cx, node), node.0, 1nat, 0nat,
{
    match w.cx.ast.kind(node) {
        ExprKind::Wildcard => true,
        ExprKind::Lit(Literal::Int(value)) => ty is Int ==> v == Datum::Int(value),
        ExprKind::Lit(Literal::Str(symbol)) => ty is Str ==> (w.names.text(symbol) matches Some(
            text,
        ) ==> v == Datum::Str(text)),
        ExprKind::Prefix(symbol) => begins(w.names, symbol, v),
        ExprKind::Record(fields) => match (ty, v) {
            (PredicateTy::Record(tys), Datum::Record(values)) => means_fields(
                w,
                sense,
                node,
                fields@,
                tys@,
                values,
                tys@.len(),
            ),
            _ => true,
        },
        kind => if kind is Var && sense(kind->Var_0) is None {
            allowed(w, kind->Var_0, v)
        } else {
            match thing_of(w, sense, node) {
                Some(Thing::Const(folded)) => w.cx.ast.constant(folded) && means(
                    w,
                    sense,
                    folded,
                    ty,
                    v,
                ),
                Some(thing) => thing_is(thing, v),
                None => true,
            }
        },
    }
}

/// Whether the pieces a record pattern gives for the first `k` fields match them.
pub open spec fn means_fields(
    w: World,
    sense: Sense,
    node: NodeId,
    fields: Seq<(Symbol, NodeId)>,
    tys: Seq<(NameKey, PredicateTy)>,
    values: Seq<(Seq<char>, Datum)>,
    k: nat,
) -> bool
    decreases model::rank(w.cx, node), node.0, 0nat, k,
{
    k == 0 || {
        &&& means_fields(w, sense, node, fields, tys, values, (k - 1) as nat)
        &&& model::field_pattern(fields, Symbol::Schema(tys[k - 1].0)) matches Some(inner)
            ==> model::below(w.cx, node, inner) ==> means(
            w,
            sense,
            inner,
            tys[k - 1].1,
            values[k - 1].1,
        )
    }
}

/// Whether a value is what a field of a thing has.
pub open spec fn field_is(
    w: World,
    sense: Sense,
    thing: Option<Thing>,
    ty: PredicateTy,
    v: Datum,
) -> bool {
    match thing {
        Some(Thing::Const(folded)) => w.cx.ast.constant(folded) && means(w, sense, folded, ty, v),
        Some(place) => thing_is(place, v),
        None => true,
    }
}

/// Whether a pattern matches the value a key holds. A whole record key may be named by
/// one expression: it matches where every field of the one is the field of the other.
pub open spec fn means_key(
    w: World,
    sense: Sense,
    node: NodeId,
    ty: PredicateTy,
    v: Datum,
) -> bool {
    match (ty, w.cx.ast.kind(node)) {
        (PredicateTy::Record(_), ExprKind::Record(_)) => means(w, sense, node, ty, v),
        (PredicateTy::Record(_), ExprKind::Wildcard) => true,
        (PredicateTy::Record(tys), kind) => if kind is Var && sense(kind->Var_0) is None {
            true
        } else {
            match thing_of(w, sense, node) {
                Some(thing) => forall|i: int|
                    0 <= i < tys@.len() ==> field_is(
                        w,
                        sense,
                        piece(w, thing, Symbol::Schema((#[trigger] tys@[i]).0)),
                        tys@[i].1,
                        v->Record_0[i].1,
                    ),
                None => true,
            }
        },
        _ => means(w, sense, node, ty, v),
    }
}

/// Whether a fact is one of a predicate's.
pub open spec fn is_of(fact: Fact, predicate: PredicateId) -> bool {
    bytes::begins_with(fact.row, tuple::big_endian(predicate.0 as nat, 4))
}

/// Whether a fact is one an alternative matches: of its predicate, with a key its
/// pattern matches.
pub open spec fn matches(w: World, sense: Sense, alt: Alt, fact: Fact) -> bool {
    &&& is_of(fact, alt.predicate)
    &&& w.cx.schema.predicate(alt.predicate) matches Some(declared) && exists|d: Datum|
        #[trigger] layout::key_is(w.names, fact.key(), declared.key, d) && means_key(
            w,
            sense,
            alt.key,
            declared.key,
            d,
        )
}

/// The facts an alternative matches, in order.
pub open spec fn matched(w: World, sense: Sense, alt: Alt) -> Seq<Fact> {
    w.facts.filter(|fact: Fact| matches(w, sense, alt, fact))
}

// ---- what a pattern binds ---------------------------------------------------

/// A place in a row: its whole key, or a field of it.
pub enum Place {
    Key(PredicateTy),
    Field(Route, PredicateTy),
}

/// What a place in a fact is.
pub open spec fn thing_at(fact: Fact, place: Place) -> Thing {
    match place {
        Place::Key(ty) => Thing::Key { fact, ty },
        Place::Field(path, ty) => Thing::Field { fact, path, ty },
    }
}

/// The variables a pattern at `path` is the first to name, and where it has them.
pub open spec fn takes(
    w: World,
    sense: Sense,
    node: NodeId,
    ty: PredicateTy,
    path: Route,
) -> Seq<(Symbol, Place)>
    decreases node.0, 1nat, 0nat,
{
    match w.cx.ast.kind(node) {
        ExprKind::Var(symbol) => if sense(symbol) is None {
            seq![(symbol, Place::Field(path, ty))]
        } else {
            Seq::empty()
        },
        ExprKind::Record(fields) => match ty {
            PredicateTy::Record(tys) => takes_fields(
                w,
                sense,
                node,
                fields@,
                tys@,
                tys@.len(),
                path,
            ),
            _ => Seq::empty(),
        },
        _ => Seq::empty(),
    }
}

/// Those of the first `k` fields.
pub open spec fn takes_fields(
    w: World,
    sense: Sense,
    node: NodeId,
    fields: Seq<(Symbol, NodeId)>,
    tys: Seq<(NameKey, PredicateTy)>,
    k: nat,
    path: Route,
) -> Seq<(Symbol, Place)>
    decreases node.0, 0nat, k,
{
    if k == 0 {
        Seq::empty()
    } else {
        takes_fields(w, sense, node, fields, tys, (k - 1) as nat, path) + (
        match model::field_pattern(fields, Symbol::Schema(tys[k - 1].0)) {
            Some(inner) => if model::below(w.cx, node, inner) {
                takes(
                    w,
                    sense,
                    inner,
                    tys[k - 1].1,
                    Route::of(path.top(), path.inner().push((k - 1) as usize)),
                )
            } else {
                Seq::empty()
            },
            None => Seq::empty(),
        })
    }
}

/// Those of the first `k` fields of a key.
pub open spec fn takes_top(
    w: World,
    sense: Sense,
    fields: Seq<(Symbol, NodeId)>,
    tys: Seq<(NameKey, PredicateTy)>,
    k: nat,
) -> Seq<(Symbol, Place)>
    decreases k,
{
    if k == 0 {
        Seq::empty()
    } else {
        takes_top(w, sense, fields, tys, (k - 1) as nat) + (match model::field_pattern(
            fields,
            Symbol::Schema(tys[k - 1].0),
        ) {
            Some(inner) => takes(
                w,
                sense,
                inner,
                tys[k - 1].1,
                Route::of((k - 1) as usize, Seq::empty()),
            ),
            None => Seq::empty(),
        })
    }
}

/// The variables a key pattern is the first to name, and where it has them.
pub open spec fn takes_key(w: World, sense: Sense, node: NodeId, ty: PredicateTy) -> Seq<
    (Symbol, Place),
> {
    match (ty, w.cx.ast.kind(node)) {
        (PredicateTy::Record(tys), ExprKind::Record(fields)) => takes_top(
            w,
            sense,
            fields@,
            tys@,
            tys@.len(),
        ),
        (PredicateTy::Record(_), ExprKind::Var(symbol)) => if sense(symbol) is None {
            seq![(symbol, Place::Key(ty))]
        } else {
            Seq::empty()
        },
        (PredicateTy::Record(_), _) => Seq::empty(),
        _ => takes(w, sense, node, ty, Route::of(0, Seq::empty())),
    }
}

// ---- what the statements mean -----------------------------------------------

/// One way to read some statements: what each variable stands for, and the pairs of
/// things that one variable was given for, which have to be the same.
#[verifier::ext_equal]
pub struct Found {
    pub sense: Sense,
    pub pairs: Seq<(Thing, Thing)>,
}

/// Where a variable was taken last.
pub open spec fn place_of(taken: Seq<(Symbol, Place)>, symbol: Symbol) -> Option<Place>
    decreases taken.len(),
{
    if taken.len() == 0 {
        None
    } else if taken.last().0 == symbol {
        Some(taken.last().1)
    } else {
        place_of(taken.drop_last(), symbol)
    }
}

/// A variable given a thing.
pub open spec fn naming(sense: Sense, symbol: Symbol, thing: Thing) -> Sense {
    |other: Symbol|
        if other == symbol {
            Some(thing)
        } else {
            sense(other)
        }
}

/// Every variable that was taken given its place in a fact.
pub open spec fn taking(sense: Sense, fact: Fact, taken: Seq<(Symbol, Place)>) -> Sense {
    |symbol: Symbol|
        match place_of(taken, symbol) {
            Some(place) => Some(thing_at(fact, place)),
            None => sense(symbol),
        }
}

/// The type of the keys an alternative ranges over.
pub open spec fn key_of(w: World, alt: Alt) -> PredicateTy {
    w.cx.schema.predicate(alt.predicate)->0.key
}

/// A variable is among what was taken.
pub open spec fn taken_in(taken: Seq<(Symbol, Place)>, symbol: Symbol) -> bool {
    exists|j: int| 0 <= j < taken.len() && (#[trigger] taken[j]).0 == symbol
}

/// Of the first `n` that were taken, those that were taken elsewhere too.
pub open spec fn common(taken: Seq<(Symbol, Place)>, other: Seq<(Symbol, Place)>, n: nat) -> Seq<
    (Symbol, Place),
>
    decreases n,
{
    if n == 0 {
        Seq::empty()
    } else {
        let before = common(taken, other, (n - 1) as nat);
        if taken_in(other, taken[n - 1].0) {
            before.push(taken[n - 1])
        } else {
            before
        }
    }
}

/// The variables that every one of the first `k` alternatives is the first to name, and
/// where the first of them has them.
pub open spec fn shared(w: World, sense: Sense, alts: Seq<Alt>, k: nat) -> Seq<(Symbol, Place)>
    decreases k,
{
    if k == 0 {
        Seq::empty()
    } else {
        let taken = takes_key(w, sense, alts[k - 1].key, key_of(w, alts[k - 1]));
        if k == 1 {
            taken
        } else {
            let before = shared(w, sense, alts, (k - 1) as nat);
            common(before, taken, before.len())
        }
    }
}

/// What a scan binds: what every alternative takes.
pub open spec fn bindings(w: World, sense: Sense, scan: Gen) -> Seq<(Symbol, Place)> {
    shared(w, sense, scan.alternatives@, scan.alternatives@.len())
}

/// A reading, and one fact more: the one an alternative of a scan matched. A variable that
/// not every alternative takes stands for nothing after it.
pub open spec fn with_fact(w: World, found: Found, scan: Gen, alt: Alt, fact: Fact) -> Found {
    let sense = taking(found.sense, fact, bindings(w, found.sense, scan));
    Found {
        sense: match scan.row {
            Some(symbol) => naming(
                sense,
                symbol,
                Thing::Row { fact, predicate: Some(alt.predicate) },
            ),
            None => sense,
        },
        pairs: found.pairs,
    }
}

/// A reading in which a pattern is another name for a thing: a variable that stands for
/// nothing yet stands for it, and one that stands for something has to be the same.
pub open spec fn with_name(w: World, found: Found, pattern: NodeId, thing: Thing) -> Found
    decreases pattern.0, 1nat, 0nat,
{
    match w.cx.ast.kind(pattern) {
        ExprKind::Var(symbol) => match (found.sense)(symbol) {
            Some(other) => Found { pairs: found.pairs.push((other, thing)), ..found },
            None => Found { sense: naming(found.sense, symbol, thing), ..found },
        },
        ExprKind::Record(fields) => with_pieces(w, found, pattern, thing, fields@, fields@.len()),
        _ => found,
    }
}

/// The first `k` pieces of a record pattern.
pub open spec fn with_pieces(
    w: World,
    found: Found,
    pattern: NodeId,
    thing: Thing,
    fields: Seq<(Symbol, NodeId)>,
    k: nat,
) -> Found
    decreases pattern.0, 0nat, k,
{
    if k == 0 {
        found
    } else {
        let before = with_pieces(w, found, pattern, thing, fields, (k - 1) as nat);
        match piece(w, thing, fields[k - 1].0) {
            Some(inner) => if fields[k - 1].1.0 < pattern.0 {
                with_name(w, before, fields[k - 1].1, inner)
            } else {
                before
            },
            None => before,
        }
    }
}

/// Whether no alternative matches a fact.
pub open spec fn denied(w: World, sense: Sense, alts: Seq<Alt>) -> bool {
    forall|i: int| 0 <= i < alts.len() ==> matched(w, sense, #[trigger] alts[i]).len() == 0
}

/// Every way to read the statements from the `k`th of an order on: one for each fact that
/// each statement over facts matches in turn.
pub open spec fn ways(
    w: World,
    stmts: Seq<Stmt>,
    order: Seq<usize>,
    k: nat,
    found: Found,
) -> Seq<Found>
    decreases order.len() - k, 2nat, 0nat,
{
    if k >= order.len() {
        seq![found]
    } else {
        match stmts[order[k as int] as int] {
            Stmt::Scan(scan) => over_alts(
                w,
                stmts,
                order,
                k,
                found,
                scan.alternatives@,
                scan,
            ),
            Stmt::Negate(tested) => if denied(w, found.sense, tested.alternatives@) {
                ways(w, stmts, order, k + 1, found)
            } else {
                Seq::empty()
            },
            Stmt::Alias(alias) => ways(
                w,
                stmts,
                order,
                k + 1,
                match thing_of(w, found.sense, alias.value) {
                    Some(thing) => with_name(w, found, alias.pattern, thing),
                    None => found,
                },
            ),
            Stmt::Constrain(_) => ways(w, stmts, order, k + 1, found),
        }
    }
}

/// Those of some alternatives of a scan, one after another.
pub open spec fn over_alts(
    w: World,
    stmts: Seq<Stmt>,
    order: Seq<usize>,
    k: nat,
    found: Found,
    alts: Seq<Alt>,
    scan: Gen,
) -> Seq<Found>
    decreases order.len() - k, 1nat, alts.len(),
{
    if k >= order.len() || alts.len() == 0 {
        Seq::empty()
    } else {
        over_facts(
            w,
            stmts,
            order,
            k,
            found,
            alts[0],
            scan,
            matched(w, found.sense, alts[0]),
        ) + over_alts(w, stmts, order, k, found, alts.skip(1), scan)
    }
}

/// Those of some facts an alternative matched, in order.
pub open spec fn over_facts(
    w: World,
    stmts: Seq<Stmt>,
    order: Seq<usize>,
    k: nat,
    found: Found,
    alt: Alt,
    scan: Gen,
    left: Seq<Fact>,
) -> Seq<Found>
    decreases order.len() - k, 0nat, left.len(),
{
    if k >= order.len() || left.len() == 0 {
        Seq::empty()
    } else {
        ways(w, stmts, order, k + 1, with_fact(w, found, scan, alt, left[0])) + over_facts(
            w,
            stmts,
            order,
            k,
            found,
            alt,
            scan,
            left.skip(1),
        )
    }
}

/// Whether two things are the same: two fields with the same value.
pub open spec fn same(a: Thing, b: Thing) -> bool {
    match (a, b) {
        (
            Thing::Field { fact, path, .. },
            Thing::Field { fact: other, path: other_path, .. },
        ) => tuple::path_bytes(fact.key(), path) == tuple::path_bytes(other.key(), other_path),
        _ => a == b,
    }
}

/// Whether what a variable stands for begins as the body says it does.
pub open spec fn satisfied(w: World, sense: Sense, symbol: Symbol, pattern: NodeId) -> bool {
    match (w.cx.ast.kind(pattern), sense(symbol)) {
        (ExprKind::Prefix(text), Some(Thing::Field { fact, path, .. })) => exists|d: Datum|
            #[trigger] layout::holds_at(fact.key(), path, d) && begins(w.names, text, d),
        (ExprKind::Prefix(text), Some(Thing::Const(folded))) => match w.cx.ast.kind(folded) {
            ExprKind::Lit(Literal::Str(held)) => w.names.text(held) matches Some(s) && begins(
                w.names,
                text,
                Datum::Str(s),
            ),
            _ => false,
        },
        _ => false,
    }
}

/// Whether a reading is an answer: every two things one variable was given for are the
/// same, and everything the body constrains holds.
pub open spec fn kept(w: World, found: Found) -> bool {
    &&& forall|i: int|
        0 <= i < found.pairs.len() ==> same(
            (#[trigger] found.pairs[i]).0,
            found.pairs[i].1,
        )
    &&& forall|i: int|
        0 <= i < w.constraints.len() ==> satisfied(
            w,
            found.sense,
            (#[trigger] w.constraints[i]).0,
            w.constraints[i].1,
        )
}

/// What the statements mean: the ways to read them that are answers.
pub open spec fn meant(
    w: World,
    stmts: Seq<Stmt>,
    order: Seq<usize>,
    found: Found,
) -> Seq<Found> {
    ways(w, stmts, order, 0, found).filter(|way: Found| kept(w, way))
}

// ---- what the head says -----------------------------------------------------

/// The value of a type a key holds, if it holds one.
pub open spec fn key_value(w: World, fact: Fact, ty: PredicateTy) -> Option<Datum> {
    if exists|d: Datum| #[trigger] layout::key_is(w.names, fact.key(), ty, d) {
        Some(choose|d: Datum| #[trigger] layout::key_is(w.names, fact.key(), ty, d))
    } else {
        None
    }
}

/// The value of a type a path leads to, if it leads to one.
pub open spec fn field_value(
    w: World,
    fact: Fact,
    path: Route,
    ty: PredicateTy,
) -> Option<Datum> {
    if exists|d: Datum|
        #[trigger] layout::holds_at(fact.key(), path, d) && tuple::fits(w.names, d, ty) {
        Some(
            choose|d: Datum|
                #[trigger] layout::holds_at(fact.key(), path, d) && tuple::fits(w.names, d, ty),
        )
    } else {
        None
    }
}

/// The value of a thing: a fact is the reference to it, a key or a field what it holds,
/// and the value side what its bytes decode to.
pub open spec fn thing_value(w: World, thing: Thing) -> Option<Datum> {
    match thing {
        Thing::Row { fact, .. } => Some(Datum::FactRef(fact.id)),
        Thing::Key { fact, ty } => key_value(w, fact, ty),
        Thing::Field { fact, path, ty } => field_value(w, fact, path, ty),
        Thing::Value { fact, ty } => match (w.values)(fact.id) {
            Some(bytes) => match tuple::decoded_value(w.names, bytes, ty) {
                Ok(d) => Some(d),
                Err(_) => None,
            },
            None => None,
        },
        Thing::Const(_) => None,
    }
}

/// The value of an expression, if it has one.
pub open spec fn value(w: World, sense: Sense, node: NodeId) -> Option<Datum>
    decreases model::rank(w.cx, node), node.0, 1nat, 0nat,
{
    match w.cx.ast.kind(node) {
        ExprKind::Lit(Literal::Int(held)) => Some(Datum::Int(held)),
        ExprKind::Lit(Literal::Str(symbol)) => match w.names.text(symbol) {
            Some(text) => Some(Datum::Str(text)),
            None => None,
        },
        ExprKind::Record(fields) => match value_fields(w, sense, node, fields@, fields@.len()) {
            Some(found) => Some(Datum::Record(found)),
            None => None,
        },
        _ => match thing_of(w, sense, node) {
            Some(Thing::Const(folded)) => if w.cx.ast.constant(folded) && !w.cx.ast.constant(
                node,
            ) {
                value(w, sense, folded)
            } else {
                None
            },
            Some(thing) => thing_value(w, thing),
            None => None,
        },
    }
}

/// Those of the first `k` fields of a record, by their names.
pub open spec fn value_fields(
    w: World,
    sense: Sense,
    node: NodeId,
    fields: Seq<(Symbol, NodeId)>,
    k: nat,
) -> Option<Seq<(Seq<char>, Datum)>>
    decreases model::rank(w.cx, node), node.0, 0nat, k,
{
    if k == 0 {
        Some(Seq::empty())
    } else {
        match (
            value_fields(w, sense, node, fields, (k - 1) as nat),
            w.names.text(fields[k - 1].0),
        ) {
            (Some(before), Some(name)) => if model::below(w.cx, node, fields[k - 1].1) {
                match value(w, sense, fields[k - 1].1) {
                    Some(d) => Some(before.push((name, d))),
                    None => None,
                }
            } else {
                None
            },
            _ => None,
        }
    }
}

} // verus!
