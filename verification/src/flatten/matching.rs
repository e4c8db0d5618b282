//! What a level's seek and filters find: exactly the facts its key pattern matches.
//!
//! A pattern is read against the value a fact's key holds, with no regard to how the
//! fact is found. The seek and the filters a level is given are then shown to admit the
//! facts the pattern matches and no others.
use vstd::prelude::*;
use vstd::utf8::*;

use super::emitting;
use super::model;
use super::scope;
use super::model::{Alt, Bytes, Cx, Seek, Slot, St};
use crate::answers;
use crate::answers::Offer;
use crate::boxed;
use crate::bytes;
use crate::error::ApertureError;
use crate::iter::Address;
use crate::layout;
use crate::machine;
use crate::plan::{Access, Fact, FactStore, FieldPath, Residual, ResidualOp, Route, SeekKeyPart};
use crate::reading;
use crate::reading::{Place, Sense, Thing, World};
use crate::schema;
use crate::schema::{NameKey, Names, PredicateId, PredicateTy, Symbol};
use crate::syntax::{ExprKind, FieldRef, Literal, NodeId};
use crate::tuple;
use crate::tuple::{Datum, MARK_RECORD, MARK_TERM};

verus! {

// ---- registers that hold what they should -----------------------------------

/// A fact's key is one of its predicate.
pub open spec fn of_predicate(cx: Cx, names: Names, fact: Fact, p: PredicateId) -> bool {
    cx.schema.predicate(p) matches Some(declared) ==> keyed(names, fact, declared.key)
}

/// A fact's key is of a type.
pub open spec fn keyed(names: Names, fact: Fact, ty: PredicateTy) -> bool {
    exists|d: Datum| #[trigger] layout::key_is(names, fact.key(), ty, d)
}

/// A path leads to a value of a type.
pub open spec fn leads(names: Names, fact: Fact, path: Route, ty: PredicateTy) -> bool {
    exists|d: Datum| #[trigger] layout::holds_at(fact.key(), path, d) && tuple::fits(names, d, ty)
}

/// A place holds a value of its type.
pub open spec fn sound_slot(
    cx: Cx,
    names: Names,
    env: Seq<Option<Fact>>,
    slot: Slot,
) -> bool {
    match slot {
        Slot::Row { address, predicate } => machine::held(env, address) matches Ok(fact) && (
        predicate matches Some(p) ==> of_predicate(cx, names, fact, p)),
        Slot::Key { address, ty } => machine::held(env, address) matches Ok(fact) && keyed(
            names,
            fact,
            ty,
        ),
        Slot::Field { address, path, ty } => machine::held(env, address) matches Ok(fact) && leads(
            names,
            fact,
            path@,
            ty,
        ),
        Slot::Value { .. } => true,
        Slot::Const(node) => cx.ast.constant(node),
    }
}

/// A reference that was followed led to the fact it names.
pub open spec fn sound_fetch(
    cx: Cx,
    names: Names,
    env: Seq<Option<Fact>>,
    entry: (Address, FieldPath, Address),
) -> bool {
    match (machine::held(env, entry.0), machine::held(env, entry.2)) {
        (Ok(from), Ok(to)) => {
            &&& tuple::path_bytes(from.key(), entry.1@) == Ok::<Seq<u8>, ApertureError>(
                tuple::enc_fact(to.id),
            )
            &&& of_predicate(cx, names, to, PredicateId(to.id.predicate_of() as u32))
        },
        _ => false,
    }
}

/// The fact a register holds.
pub open spec fn fact_in(env: Seq<Option<Fact>>, address: Address) -> Fact {
    env[address.0 as int]->0
}

/// What a place stands for.
pub open spec fn thing_in(env: Seq<Option<Fact>>, slot: Slot) -> Thing {
    match slot {
        Slot::Row { address, predicate } => Thing::Row { fact: fact_in(env, address), predicate },
        Slot::Key { address, ty } => Thing::Key { fact: fact_in(env, address), ty },
        Slot::Field { address, path, ty } => Thing::Field {
            fact: fact_in(env, address),
            path: path@,
            ty,
        },
        Slot::Value { address, ty } => Thing::Value { fact: fact_in(env, address), ty },
        Slot::Const(node) => Thing::Const(node),
    }
}

/// What a place stands for, if there is one.
pub open spec fn maybe_thing(env: Seq<Option<Fact>>, slot: Option<Slot>) -> Option<Thing> {
    match slot {
        Some(place) => Some(thing_in(env, place)),
        None => None,
    }
}

/// What each variable stands for, by the place it was bound to.
pub open spec fn sense_of(bindings: Seq<(Symbol, Slot)>, env: Seq<Option<Fact>>) -> Sense {
    |symbol: Symbol| maybe_thing(env, model::lookup(bindings, symbol))
}

/// The world a flattening reads a query in.
pub open spec fn linked(w: World, cx: Cx, st: St) -> bool {
    &&& w.cx == cx
    &&& w.names == st.names
    &&& w.hoisted == st.hoisted
    &&& w.constraints == st.constraints
}

/// Every reference that was followed led to the fact the store has.
pub open spec fn true_fetches(w: World, st: St, env: Seq<Option<Fact>>) -> bool {
    forall|i: int|
        0 <= i < st.fetched.len() ==> true_fetch(w, env, #[trigger] st.fetched[i])
}

/// The fact a reference led to is the one the store has.
pub open spec fn true_fetch(
    w: World,
    env: Seq<Option<Fact>>,
    entry: (Address, FieldPath, Address),
) -> bool {
    let to = fact_in(env, entry.2);
    (w.keys)(to.id) matches Some(key) && to.row == tuple::big_endian(
        to.id.predicate_of(),
        4,
    ) + key
}

/// Every place a flattening knows of holds a value of its type.
pub open spec fn sound(cx: Cx, st: St, env: Seq<Option<Fact>>) -> bool {
    &&& forall|i: int|
        0 <= i < st.bindings.len() ==> sound_slot(
            cx,
            st.names,
            env,
            (#[trigger] st.bindings[i]).1,
        )
    &&& forall|i: int|
        0 <= i < st.fetched.len() ==> sound_fetch(cx, st.names, env, #[trigger] st.fetched[i])
    &&& forall|i: int|
        0 <= i < st.constraints.len() ==> cx.ast.kind(
            (#[trigger] st.constraints[i]).1,
        ) is Prefix
}

proof fn lemma_lookup_sound(
    cx: Cx,
    names: Names,
    env: Seq<Option<Fact>>,
    bindings: Seq<(Symbol, Slot)>,
    symbol: Symbol,
)
    requires
        forall|i: int|
            0 <= i < bindings.len() ==> sound_slot(
                cx,
                names,
                env,
                (#[trigger] bindings[i]).1,
            ),
    ensures
        model::lookup(bindings, symbol) matches Some(slot) ==> sound_slot(
            cx,
            names,
            env,
            slot,
        ),
    decreases bindings.len(),
{
    if bindings.len() > 0 {
        assert(sound_slot(cx, names, env, bindings[bindings.len() - 1].1));
        let shorter = bindings.drop_last();
        assert forall|i: int| 0 <= i < shorter.len() implies sound_slot(
            cx,
            names,
            env,
            (#[trigger] shorter[i]).1,
        ) by {
            assert(shorter[i] == bindings[i]);
        }
        lemma_lookup_sound(cx, names, env, shorter, symbol);
    }
}

proof fn lemma_fetched_sound(
    cx: Cx,
    names: Names,
    env: Seq<Option<Fact>>,
    fetched: Seq<(Address, FieldPath, Address)>,
    address: Address,
    path: FieldPath,
)
    requires
        forall|i: int|
            0 <= i < fetched.len() ==> sound_fetch(cx, names, env, #[trigger] fetched[i]),
    ensures
        model::fetched_register(fetched, address, path) matches Some(register) ==> sound_fetch(
            cx,
            names,
            env,
            (address, path, register),
        ),
    decreases fetched.len(),
{
    if fetched.len() > 0 {
        assert(sound_fetch(cx, names, env, fetched[fetched.len() - 1]));
        let shorter = fetched.drop_last();
        assert forall|i: int| 0 <= i < shorter.len() implies sound_fetch(
            cx,
            names,
            env,
            #[trigger] shorter[i],
        ) by {
            assert(shorter[i] == fetched[i]);
        }
        lemma_fetched_sound(cx, names, env, shorter, address, path);
    }
}

/// A field of a record key leads to a value of its type.
pub proof fn lemma_key_field(
    cx: Cx,
    names: Names,
    env: Seq<Option<Fact>>,
    address: Address,
    ty: PredicateTy,
    name: Symbol,
)
    requires
        machine::held(env, address) matches Ok(fact) && keyed(names, fact, ty),
        model::field_of(ty, name) is Some,
        FieldPath::sealed((model::field_of(ty, name)->0).0, Seq::empty()),
    ensures
        ({
            let (idx, field_ty) = model::field_of(ty, name)->0;
            sound_slot(
                cx,
                names,
                env,
                Slot::Field { address, path: FieldPath::of(idx, Seq::empty()), ty: field_ty },
            )
        }),
{
    let (idx, field_ty) = model::field_of(ty, name)->0;
    let fact = machine::held(env, address)->Ok_0;
    let d = choose|d: Datum| #[trigger] layout::key_is(names, fact.key(), ty, d);
    let tys = ty->Record_0;
    schema::lemma_field_position(tys@, name->Schema_0);
    assert(tys.len() == tys@.len());
    let none = Seq::<usize>::empty();
    FieldPath::lemma_of(idx, none);
    let path = FieldPath::of(idx, none);
    layout::lemma_top(fact.key(), d, path@);
    let v = d->Record_0[idx as int].1;
    assert(layout::holds_at(fact.key(), path@, v) && tuple::fits(names, v, field_ty));
}

/// A piece of a record field leads to a value of its type.
pub proof fn lemma_inner_field(
    cx: Cx,
    names: Names,
    env: Seq<Option<Fact>>,
    slot: Slot,
    name: Symbol,
)
    requires
        sound_slot(cx, names, env, slot),
        slot is Field,
        model::field_of(slot->Field_ty, name) is Some,
        FieldPath::sealed(
            slot->Field_path.top(),
            slot->Field_path.inner().push((model::field_of(slot->Field_ty, name)->0).0),
        ),
    ensures
        ({
            let path = slot->Field_path;
            let (idx, field_ty) = model::field_of(slot->Field_ty, name)->0;
            sound_slot(
                cx,
                names,
                env,
                Slot::Field {
                    address: slot->Field_address,
                    path: FieldPath::of(path.top(), path.inner().push(idx)),
                    ty: field_ty,
                },
            )
        }),
{
    let (path, ty) = (slot->Field_path, slot->Field_ty);
    let (idx, field_ty) = model::field_of(ty, name)->0;
    let fact = machine::held(env, slot->Field_address)->Ok_0;
    let d = choose|d: Datum|
        #[trigger] layout::holds_at(fact.key(), path@, d) && tuple::fits(names, d, ty);
    let tys = ty->Record_0;
    schema::lemma_field_position(tys@, name->Schema_0);
    assert(tys.len() == tys@.len());
    let steps = path.inner().push(idx);
    FieldPath::lemma_of(path.top(), steps);
    let inner = FieldPath::of(path.top(), steps);
    layout::lemma_deeper(fact.key(), path@, d, inner@, idx);
    let v = d->Record_0[idx as int].1;
    assert(layout::holds_at(fact.key(), inner@, v) && tuple::fits(names, v, field_ty));
}

/// A reference that was followed is the row it names.
proof fn lemma_followed(
    cx: Cx,
    st: St,
    env: Seq<Option<Fact>>,
    slot: Slot,
    predicate: PredicateId,
    register: Address,
)
    requires
        sound(cx, st, env),
        sound_slot(cx, st.names, env, slot),
        slot is Field,
        slot->Field_ty == PredicateTy::Fact(predicate),
        model::fetched_register(st.fetched, slot->Field_address, slot->Field_path) == Some(
            register,
        ),
    ensures
        sound_slot(
            cx,
            st.names,
            env,
            Slot::Row { address: register, predicate: Some(predicate) },
        ),
{
    lemma_fetched_sound(
        cx,
        st.names,
        env,
        st.fetched,
        slot->Field_address,
        slot->Field_path,
    );
    let from = machine::held(env, slot->Field_address)->Ok_0;
    let to = machine::held(env, register)->Ok_0;
    let d = choose|d: Datum|
        #[trigger] layout::holds_at(from.key(), slot->Field_path@, d) && tuple::fits(
            st.names,
            d,
            slot->Field_ty,
        );
    assert(tuple::enc(d) == tuple::enc_fact(to.id));
    tuple::lemma_same_fact(d->FactRef_0, to.id);
}

/// The same places, whatever was reported.
pub open spec fn same_places(a: St, b: St) -> bool {
    &&& b.bindings == a.bindings
    &&& b.hoisted == a.hoisted
    &&& b.fetched == a.fetched
    &&& b.constraints == a.constraints
    &&& b.names == a.names
}

/// Whether only reports were added.
pub open spec fn reported(a: St, b: St) -> bool {
    same_places(a, b) && b.constrained == a.constrained && b.compares == a.compares
        && scope::further(a, b)
}

pub proof fn lemma_dereference_only(cx: Cx, st: St, node: NodeId, slot: Slot)
    ensures
        reported(st, model::dereference(cx, st, node, slot).0),
{
}

pub proof fn lemma_field_slot_only(cx: Cx, st: St, node: NodeId, slot: Slot, name: Symbol)
    ensures
        reported(st, model::field_slot(cx, st, node, slot, name).0),
{
    lemma_dereference_only(cx, st, node, slot);
}

pub proof fn lemma_resolve_only(cx: Cx, st: St, node: NodeId)
    ensures
        reported(st, model::resolve(cx, st, node).0),
    decreases node.0,
{
    if !cx.ast.constant(node) {
        if let ExprKind::Access(field, base) = cx.ast.kind(node) {
            if base.0 < node.0 {
                lemma_resolve_only(cx, st, base);
                let (s1, found) = model::resolve(cx, st, base);
                if let Some(slot) = found {
                    lemma_dereference_only(cx, s1, node, slot);
                    let (s2, place) = model::dereference(cx, s1, node, slot);
                    if let (FieldRef::Key(name), Some(inner)) = (field, place) {
                        lemma_field_slot_only(cx, s2, node, inner, name);
                    }
                }
            }
        }
    }
}

proof fn lemma_dereference_sound(
    cx: Cx,
    st: St,
    s1: St,
    env: Seq<Option<Fact>>,
    node: NodeId,
    slot: Slot,
)
    requires
        sound(cx, st, env),
        s1.fetched == st.fetched,
        sound_slot(cx, st.names, env, slot),
    ensures
        model::dereference(cx, s1, node, slot).1 matches Some(place) ==> sound_slot(
            cx,
            st.names,
            env,
            place,
        ),
{
    if let Slot::Field { address, path, ty: PredicateTy::Fact(predicate) } = slot {
        if let Some(register) = model::fetched_register(st.fetched, address, path) {
            lemma_followed(cx, st, env, slot, predicate, register);
        }
    }
}

pub proof fn lemma_row_field_sound(
    cx: Cx,
    names: Names,
    env: Seq<Option<Fact>>,
    address: Address,
    predicate: Option<PredicateId>,
    name: Symbol,
)
    requires
        sound_slot(cx, names, env, Slot::Row { address, predicate }),
        model::place_sealed(model::row_field(cx, address, predicate, name)),
    ensures
        model::row_field(cx, address, predicate, name) matches Some(place) ==> sound_slot(
            cx,
            names,
            env,
            place,
        ),
{
    if let Some(id) = predicate {
        if let Some(declared) = cx.schema.predicate(id) {
            if let Some((idx, _)) = model::field_of(declared.key, name) {
                FieldPath::lemma_of(idx, Seq::empty());
                lemma_key_field(cx, names, env, address, declared.key, name);
            }
        }
    }
}

proof fn lemma_field_slot_sound(
    cx: Cx,
    st: St,
    s2: St,
    env: Seq<Option<Fact>>,
    node: NodeId,
    slot: Slot,
    name: Symbol,
)
    requires
        sound(cx, st, env),
        s2.fetched == st.fetched,
        sound_slot(cx, st.names, env, slot),
        model::field_slot(cx, s2, node, slot, name).0.sealed,
    ensures
        model::field_slot(cx, s2, node, slot, name).1 matches Some(place) ==> sound_slot(
            cx,
            st.names,
            env,
            place,
        ),
{
    match slot {
        Slot::Row { address, predicate } => lemma_row_field_sound(
            cx,
            st.names,
            env,
            address,
            predicate,
            name,
        ),
        Slot::Key { address, ty } => if model::field_of(ty, name) is Some {
            lemma_key_field(cx, st.names, env, address, ty, name);
        },
        Slot::Field { address, path, ty } => match ty {
            PredicateTy::Record(_) => if model::field_of(ty, name) is Some {
                lemma_inner_field(cx, st.names, env, slot, name);
            },
            PredicateTy::Fact(p) => {
                lemma_dereference_sound(cx, st, s2, env, node, slot);
                if let Some(Slot::Row { address: register, predicate }) = model::dereference(
                    cx,
                    s2,
                    node,
                    slot,
                ).1 {
                    lemma_row_field_sound(cx, st.names, env, register, predicate, name);
                }
            },
            _ => {},
        },
        Slot::Const(folded) => {
            if let ExprKind::Record(fields) = cx.ast.kind(folded) {
                lemma_piece_constant(cx, folded, fields@, name);
            }
        },
        _ => {},
    }
}

/// A piece of a constant is a constant.
pub proof fn lemma_piece_constant(cx: Cx, node: NodeId, fields: Seq<(Symbol, NodeId)>, name: Symbol)
    requires
        forall|i: int|
            0 <= i < fields.len() ==> (#[trigger] fields[i]).1.0 < node.0 && cx.ast.constant(
                fields[i].1,
            ),
    ensures
        model::field_pattern(fields, name) matches Some(piece) ==> cx.ast.constant(piece)
            && piece.0 < node.0,
    decreases fields.len(),
{
    if fields.len() > 0 {
        let shorter = fields.drop_last();
        assert forall|i: int| 0 <= i < shorter.len() implies (#[trigger] shorter[i]).1.0 < node.0
            && cx.ast.constant(shorter[i].1) by {
            assert(shorter[i] == fields[i]);
        }
        assert(cx.ast.constant(fields[fields.len() - 1].1));
        lemma_piece_constant(cx, node, shorter, name);
    }
}

// ---- narrowing --------------------------------------------------------------

/// Whether a level's seek and filters so far find a fact.
pub open spec fn finds(env: Seq<Option<Fact>>, level: Seek, fact: Fact) -> bool {
    &&& machine::parts_bytes(env, level.parts, level.parts.len()) matches Ok(prefix)
        && bytes::begins_with(fact.key(), prefix)
    &&& machine::passes(env, level.residuals, fact, level.residuals.len()) == Ok::<
        bool,
        ApertureError,
    >(true)
}

/// Whether what they read can be read.
pub open spec fn readable(env: Seq<Option<Fact>>, level: Seek, fact: Fact) -> bool {
    &&& machine::parts_bytes(env, level.parts, level.parts.len()) is Ok
    &&& machine::passes(env, level.residuals, fact, level.residuals.len()) is Ok
}

/// While the seek is being built, a key that begins with it has reached `off`.
spec fn aligned(env: Seq<Option<Fact>>, level: Seek, fact: Fact, off: nat) -> bool {
    level.building ==> {
        let prefix = machine::parts_bytes(env, level.parts, level.parts.len())->Ok_0;
        bytes::begins_with(fact.key(), prefix) ==> prefix.len() == off
    }
}

/// A value stands at `off`, where that matters.
spec fn stands(level: Seek, fact: Fact, v: Datum, off: nat) -> bool {
    level.building ==> {
        &&& off + tuple::enc(v).len() <= fact.key().len()
        &&& fact.key().subrange(off as int, (off + tuple::enc(v).len()) as int) == tuple::enc(v)
    }
}

proof fn lemma_parts_push(
    env: Seq<Option<Fact>>,
    parts: Seq<SeekKeyPart>,
    part: SeekKeyPart,
    k: nat,
)
    requires
        k <= parts.len(),
    ensures
        machine::parts_bytes(env, parts.push(part), k) == machine::parts_bytes(env, parts, k),
    decreases k,
{
    if k > 0 {
        lemma_parts_push(env, parts, part, (k - 1) as nat);
    }
}

proof fn lemma_passes_push(
    env: Seq<Option<Fact>>,
    filters: Seq<Residual>,
    filter: Residual,
    fact: Fact,
    k: nat,
)
    requires
        k <= filters.len(),
    ensures
        machine::passes(env, filters.push(filter), fact, k) == machine::passes(
            env,
            filters,
            fact,
            k,
        ),
    decreases k,
{
    if k > 0 {
        lemma_passes_push(env, filters, filter, fact, (k - 1) as nat);
    }
}

proof fn lemma_begins_concat(key: Seq<u8>, p: Seq<u8>, w: Seq<u8>)
    ensures
        bytes::begins_with(key, p + w) <==> bytes::begins_with(key, p) && bytes::begins_with(
            key.skip(p.len() as int),
            w,
        ),
{
    let (m, n) = (p.len() as int, w.len() as int);
    if bytes::begins_with(key, p + w) {
        assert(key.take(m) =~= (p + w).take(m));
        assert((p + w).take(m) =~= p);
        assert(key.skip(m).take(n) =~= key.take(m + n).skip(m));
        assert((p + w).skip(m) =~= w);
    }
    if bytes::begins_with(key, p) && m <= key.len() && bytes::begins_with(key.skip(m), w) {
        assert(key.take(m + n) =~= key.take(m) + key.skip(m).take(n));
    }
}

/// Narrowing by a whole value finds the facts that hold it.
proof fn lemma_narrowed(
    env: Seq<Option<Fact>>,
    level: Seek,
    part: SeekKeyPart,
    path: FieldPath,
    op: ResidualOp,
    fact: Fact,
    v: Datum,
    d: Datum,
    off: nat,
)
    requires
        readable(env, level, fact),
        aligned(env, level, fact, off),
        stands(level, fact, v, off),
        layout::holds_at(fact.key(), path@, v),
        machine::part_bytes(env, part) == Ok::<Seq<u8>, ApertureError>(tuple::enc(d)),
        machine::holds(env, tuple::enc(v), op) == Ok::<bool, ApertureError>(
            tuple::enc(v) == tuple::enc(d),
        ),
    ensures
        ({
            let after = level.narrowed(part, path, op);
            &&& readable(env, after, fact)
            &&& aligned(env, after, fact, off + tuple::enc(v).len())
            &&& finds(env, after, fact) <==> finds(env, level, fact) && tuple::enc(v)
                == tuple::enc(d)
        }),
{
    let after = level.narrowed(part, path, op);
    let key = fact.key();
    if level.building {
        lemma_parts_push(env, level.parts, part, level.parts.len());
        let p = machine::parts_bytes(env, level.parts, level.parts.len())->Ok_0;
        let w = tuple::enc(d);
        lemma_begins_concat(key, p, w);
        assert(machine::parts_bytes(env, after.parts, after.parts.len()) == Ok::<
            Seq<u8>,
            ApertureError,
        >(p + w));
        if bytes::begins_with(key, p) {
            let rest = key.skip(off as int);
            let n = tuple::enc(v).len() as int;
            assert(rest.take(n) =~= key.subrange(off as int, off + n));
            assert(bytes::begins_with(rest, tuple::enc(v)));
            if bytes::begins_with(rest, w) {
                tuple::law_no_encoding_begins_another(rest, v, d);
            }
        }
    } else {
        let filter = Residual { path, op };
        lemma_passes_push(env, level.residuals, filter, fact, level.residuals.len());
    }
}

/// No byte of an escaped string is a terminator.
proof fn lemma_escaped_is_no_terminator(s: Seq<u8>, i: int)
    requires
        0 <= i < tuple::escaped(s).len(),
    ensures
        tuple::escaped(s)[i] != MARK_TERM,
    decreases s.len(),
{
    if s.len() > 0 {
        let before = tuple::escaped(s.drop_last());
        if i < before.len() {
            lemma_escaped_is_no_terminator(s.drop_last(), i);
        } else {
            assert(tuple::escaped(s)[i] == tuple::escaped_byte(s.last())[i - before.len()]);
        }
    }
}

/// What a string is followed by does not matter to how it begins.
proof fn lemma_prefix_stays_inside(s: Seq<char>, text: Seq<char>, rest: Seq<u8>)
    ensures
        bytes::begins_with(tuple::enc_str(s) + rest, tuple::enc_str_prefix(text))
            <==> bytes::begins_with(tuple::enc_str(s), tuple::enc_str_prefix(text)),
{
    let (a, p) = (tuple::enc_str(s), tuple::enc_str_prefix(text));
    let whole = a + rest;
    let (m, n) = (a.len() as int, p.len() as int);
    if n <= m {
        assert(whole.take(n) =~= a.take(n));
    } else if bytes::begins_with(whole, p) {
        assert(whole.take(n)[m - 1] == a[m - 1]);
        assert(p[m - 1] == MARK_TERM);
        if m - 1 > 0 {
            lemma_escaped_is_no_terminator(encode_utf8(text), m - 2);
            assert(p[m - 1] == tuple::escaped(encode_utf8(text))[m - 2]);
        }
        assert(false);
    }
}

/// Narrowing by a prefix finds the facts whose string begins with it.
#[verifier::rlimit(30)]
proof fn lemma_prefixed(
    env: Seq<Option<Fact>>,
    level: Seek,
    path: FieldPath,
    text: Seq<char>,
    fact: Fact,
    s: Seq<char>,
    off: nat,
)
    requires
        readable(env, level, fact),
        aligned(env, level, fact, off),
        stands(level, fact, Datum::Str(s), off),
        layout::holds_at(fact.key(), path@, Datum::Str(s)),
        boxed::boxed(tuple::enc_str_prefix(text))@ == tuple::enc_str_prefix(text),
    ensures
        ({
            let after = model::narrow_by(
                Bytes::Prefix(tuple::enc_str_prefix(text)),
                path,
                level,
            );
            &&& readable(env, after, fact)
            &&& !after.building
            &&& finds(env, after, fact) <==> finds(env, level, fact) && bytes::begins_with(
                encode_utf8(s),
                encode_utf8(text),
            )
        }),
{
    let w = tuple::enc_str_prefix(text);
    let part = SeekKeyPart::Bytes(boxed::boxed(w));
    let op = ResidualOp::Prefix(boxed::boxed(w));
    let key = fact.key();
    let e = tuple::enc_str(s);
    assert(tuple::enc(Datum::Str(s)) == e);
    tuple::law_string_prefixes(s, text);
    if level.building {
        lemma_parts_push(env, level.parts, part, level.parts.len());
        let p = machine::parts_bytes(env, level.parts, level.parts.len())->Ok_0;
        lemma_begins_concat(key, p, w);
        let grown = level.parts.push(part);
        assert(machine::parts_bytes(env, grown, grown.len()) == Ok::<Seq<u8>, ApertureError>(
            p + w,
        ));
        if bytes::begins_with(key, p) {
            let n = e.len() as int;
            let rest = key.skip(off as int);
            assert(rest =~= e + key.skip(off + n)) by {
                assert(rest =~= key.subrange(off as int, off + n) + key.skip(off + n));
            }
            lemma_prefix_stays_inside(s, text, key.skip(off + n));
        }
    } else {
        lemma_passes_push(
            env,
            level.residuals,
            Residual { path, op },
            fact,
            level.residuals.len(),
        );
    }
}

// ---- constants --------------------------------------------------------------

/// The encodings of some values, back to back.
spec fn joined(values: Seq<Datum>) -> Seq<u8>
    decreases values.len(),
{
    if values.len() == 0 {
        Seq::empty()
    } else {
        joined(values.drop_last()) + tuple::enc(values.last())
    }
}

proof fn lemma_joined_fields(d: Datum, k: nat)
    requires
        d is Record,
        k <= d->Record_0.len(),
    ensures
        tuple::enc_fields(tuple::values_of(d->Record_0).take(k as int), d) == joined(
            tuple::values_of(d->Record_0).take(k as int),
        ),
    decreases k,
{
    let values = tuple::values_of(d->Record_0);
    if k == 0 {
        assert(values.take(0) =~= Seq::<Datum>::empty());
    } else {
        lemma_joined_fields(d, (k - 1) as nat);
        tuple::lemma_enc_fields_step(d, (k - 1) as nat);
        assert(values.take(k as int).drop_last() =~= values.take(k - 1));
    }
}

/// A record's encoding, by its values.
proof fn lemma_record_enc(d: Datum)
    requires
        d is Record,
    ensures
        tuple::enc(d) == seq![MARK_RECORD] + joined(tuple::values_of(d->Record_0)) + seq![
            MARK_TERM,
        ],
{
    let values = tuple::values_of(d->Record_0);
    assert(values.take(values.len() as int) =~= values);
    lemma_joined_fields(d, values.len());
}

proof fn lemma_joined_take(values: Seq<Datum>, k: nat)
    requires
        k < values.len(),
    ensures
        joined(values.take(k as int + 1)) == joined(values.take(k as int)) + tuple::enc(
            values[k as int],
        ),
        bytes::begins_with(joined(values), joined(values.take(k as int + 1))),
    decreases values.len(),
{
    let shorter = values.drop_last();
    assert(values.take(k as int + 1).drop_last() =~= values.take(k as int));
    if k + 1 == values.len() {
        assert(values.take(k as int + 1) =~= values);
        assert(joined(values).take(joined(values).len() as int) =~= joined(values));
    } else {
        lemma_joined_take(shorter, k);
        assert(shorter.take(k as int + 1) =~= values.take(k as int + 1));
        let (a, b) = (joined(values.take(k as int + 1)), joined(shorter));
        assert(joined(values) == b + tuple::enc(values.last()));
        assert(joined(values).take(a.len() as int) =~= b.take(a.len() as int));
    }
}

/// Equal encodings back to back are equal one by one.
proof fn lemma_joined_apart(a: Seq<Datum>, b: Seq<Datum>, k: nat)
    requires
        a.len() == b.len(),
        joined(a) == joined(b),
        k <= a.len(),
    ensures
        joined(a.take(k as int)) == joined(b.take(k as int)),
        forall|i: int| 0 <= i < k ==> tuple::enc(#[trigger] a[i]) == tuple::enc(b[i]),
    decreases k,
{
    if k == 0 {
        assert(a.take(0) =~= b.take(0));
    } else {
        let j = (k - 1) as nat;
        lemma_joined_apart(a, b, j);
        lemma_joined_take(a, j);
        lemma_joined_take(b, j);
        let p = joined(a.take(j as int));
        lemma_begins_concat(joined(a), p, tuple::enc(a[j as int]));
        lemma_begins_concat(joined(a), p, tuple::enc(b[j as int]));
        tuple::law_no_encoding_begins_another(
            joined(a).skip(p.len() as int),
            a[j as int],
            b[j as int],
        );
    }
}

proof fn lemma_joined_together(a: Seq<Datum>, b: Seq<Datum>)
    requires
        a.len() == b.len(),
        forall|i: int| 0 <= i < a.len() ==> tuple::enc(#[trigger] a[i]) == tuple::enc(b[i]),
    ensures
        joined(a) == joined(b),
    decreases a.len(),
{
    if a.len() > 0 {
        assert(tuple::enc(a[a.len() - 1]) == tuple::enc(b[b.len() - 1]));
        assert forall|i: int| 0 <= i < a.drop_last().len() implies tuple::enc(
            #[trigger] a.drop_last()[i],
        ) == tuple::enc(b.drop_last()[i]) by {
            assert(tuple::enc(a[i]) == tuple::enc(b[i]));
        }
        lemma_joined_together(a.drop_last(), b.drop_last());
    }
}

/// Values of one type with the same encoding are the same.
pub proof fn lemma_same_value(names: Names, a: Datum, b: Datum, ty: PredicateTy)
    requires
        tuple::fits(names, a, ty),
        tuple::fits(names, b, ty),
        tuple::enc(a) == tuple::enc(b),
    ensures
        a == b,
{
    let nothing = Seq::<u8>::empty();
    tuple::law_decoding_gives_back_what_was_encoded(names, nothing, a, nothing, ty);
    tuple::law_decoding_gives_back_what_was_encoded(names, nothing, b, nothing, ty);
}

/// A constant that determines every byte matches the values with those bytes.
proof fn lemma_constant(
    cx: Cx,
    st: St,
    env: Seq<Option<Fact>>,
    w: World,
    node: NodeId,
    ty: PredicateTy,
    v: Datum,
) -> (d: Datum)
    requires
        linked(w, cx, st),
        cx.ast.constant(node),
        model::constant(cx, st, node, ty) is Some,
        tuple::fits(st.names, v, ty),
    ensures
        model::constant(cx, st, node, ty) == Some(Bytes::Whole(tuple::enc(d))),
        reading::means(w, sense_of(st.bindings, env), node, ty, v) <==> tuple::enc(v)
            == tuple::enc(d),
    decreases node.0, 1nat, 0nat,
{
    match cx.ast.kind(node) {
        ExprKind::Lit(Literal::Int(value)) => {
            let d = Datum::Int(value);
            if tuple::enc(v) == tuple::enc(d) {
                lemma_same_value(st.names, v, d, ty);
            }
            d
        },
        ExprKind::Lit(Literal::Str(symbol)) => {
            let d = Datum::Str(st.names.text(symbol)->0);
            if tuple::enc(v) == tuple::enc(d) {
                lemma_same_value(st.names, v, d, ty);
            }
            d
        },
        ExprKind::Record(fields) => {
            let tys = ty->Record_0@;
            let values = v->Record_0;
            let n = tys.len();
            let ds = lemma_constant_fields(cx, st, env, w, node, fields@, tys, values, n);
            let d = Datum::Record(Seq::new(n, |i: int| (Seq::<char>::empty(), ds[i])));
            assert(tuple::values_of(d->Record_0) =~= ds);
            lemma_record_enc(d);
            lemma_record_enc(v);
            let vs = tuple::values_of(values);
            let (x, y) = (joined(vs), joined(ds));
            if tuple::enc(v) == tuple::enc(d) {
                assert(tuple::enc(v).len() == x.len() + 2);
                assert(tuple::enc(d).len() == y.len() + 2);
                assert(x =~= tuple::enc(v).subrange(1, x.len() as int + 1));
                assert(y =~= tuple::enc(d).subrange(1, y.len() as int + 1));
                lemma_joined_apart(vs, ds, n);
                assert forall|i: int| 0 <= i < n implies tuple::enc(#[trigger] values[i].1)
                    == tuple::enc(ds[i]) by {
                    assert(tuple::enc(vs[i]) == tuple::enc(ds[i]));
                }
            }
            if reading::means(w, sense_of(st.bindings, env), node, ty, v) {
                assert forall|i: int| 0 <= i < n implies tuple::enc(#[trigger] vs[i])
                    == tuple::enc(ds[i]) by {
                    assert(tuple::enc(values[i].1) == tuple::enc(ds[i]));
                }
                lemma_joined_together(vs, ds);
            }
            d
        },
        _ => {
            assert(false);
            v
        },
    }
}

proof fn lemma_constant_fields(
    cx: Cx,
    st: St,
    env: Seq<Option<Fact>>,
    w: World,
    node: NodeId,
    fields: Seq<(Symbol, NodeId)>,
    tys: Seq<(NameKey, PredicateTy)>,
    values: Seq<(Seq<char>, Datum)>,
    k: nat,
) -> (ds: Seq<Datum>)
    requires
        linked(w, cx, st),
        forall|i: int|
            0 <= i < fields.len() ==> (#[trigger] fields[i]).1.0 < node.0 && cx.ast.constant(
                fields[i].1,
            ),
        model::constant_fields(cx, st, node, fields, tys, k) is Some,
        k <= tys.len(),
        values.len() == tys.len(),
        forall|i: int|
            0 <= i < values.len() ==> tuple::fits(
                st.names,
                (#[trigger] values[i]).1,
                tys[i].1,
            ),
    ensures
        ds.len() == k,
        model::constant_fields(cx, st, node, fields, tys, k) == Some(joined(ds)),
        reading::means_fields(w, sense_of(st.bindings, env), node, fields, tys, values, k) <==> (
        forall|i: int|
            0 <= i < k ==> tuple::enc((#[trigger] values[i]).1) == tuple::enc(ds[i])),
    decreases node.0, 0nat, k,
{
    if k == 0 {
        Seq::empty()
    } else {
        let before = lemma_constant_fields(
            cx,
            st,
            env,
            w,
            node,
            fields,
            tys,
            values,
            (k - 1) as nat,
        );
        lemma_piece_constant(cx, node, fields, Symbol::Schema(tys[k - 1].0));
        let piece = model::field_pattern(fields, Symbol::Schema(tys[k - 1].0))->0;
        assert(tuple::fits(st.names, values[k - 1].1, tys[k - 1].1));
        let d = lemma_constant(cx, st, env, w, piece, tys[k - 1].1, values[k - 1].1);
        let ds = before.push(d);
        assert(ds.drop_last() =~= before);
        if reading::means_fields(w, sense_of(st.bindings, env), node, fields, tys, values, k) {
            assert forall|i: int| 0 <= i < k implies tuple::enc((#[trigger] values[i]).1)
                == tuple::enc(ds[i]) by {
                if i < k - 1 {
                    assert(ds[i] == before[i]);
                }
            }
        }
        if forall|i: int|
            0 <= i < k ==> tuple::enc((#[trigger] values[i]).1) == tuple::enc(ds[i]) {
            assert forall|i: int| 0 <= i < k - 1 implies tuple::enc((#[trigger] values[i]).1)
                == tuple::enc(before[i]) by {
                assert(ds[i] == before[i]);
            }
            assert(tuple::enc(values[k - 1].1) == tuple::enc(ds[k - 1]));
        }
        ds
    }
}

/// A constant's bytes depend on the names alone.
proof fn lemma_constant_same(cx: Cx, a: St, b: St, node: NodeId, ty: PredicateTy)
    requires
        cx.ast.constant(node),
        a.names == b.names,
    ensures
        model::constant(cx, a, node, ty) == model::constant(cx, b, node, ty),
    decreases node.0, 1nat, 0nat,
{
    if let (ExprKind::Record(fields), PredicateTy::Record(tys)) = (cx.ast.kind(node), ty) {
        lemma_constant_fields_same(cx, a, b, node, fields@, tys@, tys@.len());
    }
}

proof fn lemma_constant_fields_same(
    cx: Cx,
    a: St,
    b: St,
    node: NodeId,
    fields: Seq<(Symbol, NodeId)>,
    tys: Seq<(NameKey, PredicateTy)>,
    k: nat,
)
    requires
        forall|i: int|
            0 <= i < fields.len() ==> (#[trigger] fields[i]).1.0 < node.0 && cx.ast.constant(
                fields[i].1,
            ),
        a.names == b.names,
    ensures
        model::constant_fields(cx, a, node, fields, tys, k) == model::constant_fields(
            cx,
            b,
            node,
            fields,
            tys,
            k,
        ),
    decreases node.0, 0nat, k,
{
    if k > 0 {
        lemma_constant_fields_same(cx, a, b, node, fields, tys, (k - 1) as nat);
        lemma_piece_constant(cx, node, fields, Symbol::Schema(tys[k - 1].0));
        if let Some(piece) = model::field_pattern(fields, Symbol::Schema(tys[k - 1].0)) {
            lemma_constant_same(cx, a, b, piece, tys[k - 1].1);
        }
    }
}

// ---- walking a pattern ------------------------------------------------------

/// A place in the row being matched.
pub open spec fn at_here(slot: Slot, here: Address) -> bool {
    match slot {
        Slot::Field { address, .. } => address == here,
        Slot::Key { address, .. } => address == here,
        _ => false,
    }
}

/// What was bound, and then only places in the row being matched.
pub open spec fn captures_only(
    bindings: Seq<(Symbol, Slot)>,
    more: Seq<(Symbol, Slot)>,
    here: Address,
) -> bool {
    &&& bindings.len() <= more.len()
    &&& more.take(bindings.len() as int) == bindings
    &&& forall|i: int|
        bindings.len() <= i < more.len() ==> at_here((#[trigger] more[i]).1, here)
            && model::lookup(bindings, more[i].0) is None
}

/// A state the walk of one pattern comes to.
pub open spec fn follows(st: St, s: St, here: Address) -> bool {
    &&& captures_only(st.bindings, s.bindings, here)
    &&& s.hoisted == st.hoisted
    &&& s.fetched == st.fetched
    &&& s.constraints == st.constraints
    &&& s.names == st.names
}

/// What a walk stands on: sound places, and a register that is yet to be filled.
pub open spec fn grounded(
    cx: Cx,
    st: St,
    env: Seq<Option<Fact>>,
    w: World,
    here: Address,
) -> bool {
    &&& sound(cx, st, env)
    &&& machine::held(env, here) is Err
    &&& linked(w, cx, st)
    &&& true_fetches(w, st, env)
}

/// A place in the row that is to fill a register.
pub open spec fn slot_at(here: Address, place: Place) -> Slot {
    match place {
        Place::Key(ty) => Slot::Key { address: here, ty },
        Place::Field(path, ty) => Slot::Field {
            address: here,
            path: FieldPath::of(path.top(), path.inner()),
            ty,
        },
    }
}

/// Some of them, by variable.
pub open spec fn slots_at(here: Address, taken: Seq<(Symbol, Place)>) -> Seq<(Symbol, Slot)> {
    taken.map_values(|one: (Symbol, Place)| (one.0, slot_at(here, one.1)))
}

/// What a step of the walk comes to, where a pattern that matches or not was walked.
spec fn walked(
    st: St,
    s: St,
    env: Seq<Option<Fact>>,
    here: Address,
    level: Seek,
    after: Seek,
    fact: Fact,
    end: nat,
    matches: bool,
) -> bool {
    &&& follows(st, s, here)
    &&& readable(env, after, fact)
    &&& aligned(env, after, fact, end)
    &&& finds(env, after, fact) <==> finds(env, level, fact) && matches
}

pub proof fn lemma_lookup_follows(
    bindings: Seq<(Symbol, Slot)>,
    more: Seq<(Symbol, Slot)>,
    here: Address,
    symbol: Symbol,
)
    requires
        captures_only(bindings, more, here),
    ensures
        match model::lookup(bindings, symbol) {
            Some(slot) => model::lookup(more, symbol) == Some(slot),
            None => model::lookup(more, symbol) matches Some(slot) ==> at_here(slot, here),
        },
    decreases more.len(),
{
    if more.len() == bindings.len() {
        assert(more =~= bindings);
    } else {
        let shorter = more.drop_last();
        assert(shorter.take(bindings.len() as int) =~= more.take(bindings.len() as int));
        assert forall|i: int| bindings.len() <= i < shorter.len() implies at_here(
            (#[trigger] shorter[i]).1,
            here,
        ) && model::lookup(bindings, shorter[i].0) is None by {
            assert(shorter[i] == more[i]);
        }
        lemma_lookup_follows(bindings, shorter, here, symbol);
        assert(at_here(more[more.len() - 1].1, here));
    }
}

/// Nothing was fetched through a row that is not there.
proof fn lemma_nothing_fetched(
    cx: Cx,
    st: St,
    env: Seq<Option<Fact>>,
    here: Address,
    path: FieldPath,
)
    requires
        sound(cx, st, env),
        machine::held(env, here) is Err,
    ensures
        model::fetched_register(st.fetched, here, path) is None,
{
    lemma_fetched_sound(cx, st.names, env, st.fetched, here, path);
}

/// Following a reference leads to the row it was fetched into.
proof fn lemma_followed_thing(
    cx: Cx,
    st: St,
    s: St,
    env: Seq<Option<Fact>>,
    w: World,
    node: NodeId,
    slot: Slot,
)
    requires
        sound(cx, st, env),
        linked(w, cx, st),
        true_fetches(w, st, env),
        same_places(st, s) || s.fetched == st.fetched,
        sound_slot(cx, st.names, env, slot),
        model::dereference(cx, s, node, slot).0.reports.len() == s.reports.len(),
    ensures
        reading::followed(w, thing_in(env, slot)) == maybe_thing(
            env,
            model::dereference(cx, s, node, slot).1,
        ),
        model::dereference(cx, s, node, slot).1 matches Some(place) ==> sound_slot(
            cx,
            st.names,
            env,
            place,
        ),
{
    if let Slot::Field { address, path, ty: PredicateTy::Fact(predicate) } = slot {
        let register = model::fetched_register(st.fetched, address, path)->0;
        lemma_followed(cx, st, env, slot, predicate, register);
        lemma_fetched_sound(cx, st.names, env, st.fetched, address, path);
        lemma_fetched_true(w, env, st.fetched, address, path);
        let from = fact_in(env, address);
        let to = fact_in(env, register);
        assert(machine::held(env, address) == Ok::<Fact, ApertureError>(from));
        assert(machine::held(env, register) == Ok::<Fact, ApertureError>(to));
        let d = choose|d: Datum|
            #[trigger] layout::holds_at(from.key(), path@, d) && tuple::fits(
                st.names,
                d,
                slot->Field_ty,
            );
        assert(tuple::enc(d) == tuple::enc_fact(to.id));
        tuple::lemma_same_fact(d->FactRef_0, to.id);
        lemma_named(to.id, predicate);
    }
}

/// A reference's bytes name it.
pub proof fn lemma_named(id: crate::plan::FactId, predicate: PredicateId)
    requires
        id.sequence_of() != 0,
        id.predicate_of() == predicate.0,
    ensures
        answers::named_by(tuple::enc_fact(id), predicate) == Ok::<
            crate::plan::FactId,
            ApertureError,
        >(id),
{
    let nameless = Names { schema: Seq::empty(), local: Seq::empty() };
    let nothing = Seq::<u8>::empty();
    let d = Datum::FactRef(id);
    assert(nothing + tuple::enc(d) + nothing =~= tuple::enc_fact(id));
    tuple::law_decoding_gives_back_what_was_encoded(
        nameless,
        nothing,
        d,
        nothing,
        PredicateTy::Fact(predicate),
    );
}

proof fn lemma_fetched_true(
    w: World,
    env: Seq<Option<Fact>>,
    fetched: Seq<(Address, FieldPath, Address)>,
    address: Address,
    path: FieldPath,
)
    requires
        forall|i: int| 0 <= i < fetched.len() ==> true_fetch(w, env, #[trigger] fetched[i]),
    ensures
        model::fetched_register(fetched, address, path) matches Some(register) ==> true_fetch(
            w,
            env,
            (address, path, register),
        ),
    decreases fetched.len(),
{
    if fetched.len() > 0 {
        assert(true_fetch(w, env, fetched[fetched.len() - 1]));
        let shorter = fetched.drop_last();
        assert forall|i: int| 0 <= i < shorter.len() implies true_fetch(
            w,
            env,
            #[trigger] shorter[i],
        ) by {
            assert(shorter[i] == fetched[i]);
        }
        lemma_fetched_true(w, env, shorter, address, path);
    }
}

/// The path to a key field, as it was made.
proof fn lemma_row_piece(
    cx: Cx,
    address: Address,
    predicate: Option<PredicateId>,
    name: Symbol,
)
    requires
        model::place_sealed(model::row_field(cx, address, predicate, name)),
    ensures
        model::row_field(cx, address, predicate, name) matches Some(Slot::Field { path, .. })
            ==> path@ == Route::of(path.top(), Seq::empty()) && path.top() == (model::field_of(
            cx.schema.predicate(predicate->0)->0.key,
            name,
        )->0).0,
{
    if let Some(Slot::Field { path, .. }) = model::row_field(cx, address, predicate, name) {
        let (idx, _) = model::field_of(cx.schema.predicate(predicate->0)->0.key, name)->0;
        FieldPath::lemma_of(idx, Seq::empty());
    }
}

/// A field of a place is the field of what it stands for.
pub proof fn lemma_piece_thing(
    cx: Cx,
    st: St,
    s: St,
    env: Seq<Option<Fact>>,
    w: World,
    node: NodeId,
    slot: Slot,
    name: Symbol,
)
    requires
        sound(cx, st, env),
        linked(w, cx, st),
        true_fetches(w, st, env),
        s.fetched == st.fetched,
        sound_slot(cx, st.names, env, slot),
        scope::clean(s, model::field_slot(cx, s, node, slot, name).0),
    ensures
        reading::piece(w, thing_in(env, slot), name) == maybe_thing(
            env,
            model::field_slot(cx, s, node, slot, name).1,
        ),
        model::field_slot(cx, s, node, slot, name).1 matches Some(place) ==> sound_slot(
            cx,
            st.names,
            env,
            place,
        ),
{
    lemma_field_slot_sound(cx, st, s, env, node, slot, name);
    match slot {
        Slot::Row { address, predicate } => lemma_row_piece(cx, address, predicate, name),
        Slot::Key { address, ty } => if let Some((idx, _)) = model::field_of(ty, name) {
            FieldPath::lemma_of(idx, Seq::empty());
        },
        Slot::Field { address, path, ty: PredicateTy::Fact(predicate) } => {
            lemma_followed_thing(cx, st, s, env, w, node, slot);
            if let Some(Slot::Row { address: register, predicate: to }) = model::dereference(
                cx,
                s,
                node,
                slot,
            ).1 {
                lemma_row_piece(cx, register, to, name);
            }
        },
        Slot::Field { address, path, ty } => if let Some((idx, _)) = model::field_of(ty, name) {
            FieldPath::lemma_of(path.top(), path.inner().push(idx));
        },
        _ => {},
    }
}

/// What an expression resolves to is what it stands for, unless that is in the row being
/// matched.
pub proof fn lemma_thing(
    cx: Cx,
    st: St,
    s: St,
    env: Seq<Option<Fact>>,
    w: World,
    here: Address,
    node: NodeId,
)
    requires
        sound(cx, st, env),
        machine::held(env, here) is Err,
        follows(st, s, here),
        linked(w, cx, st),
        true_fetches(w, st, env),
        scope::clean(s, model::resolve(cx, s, node).0),
    ensures
        match model::resolve(cx, s, node).1 {
            Some(slot) => if at_here(slot, here) {
                reading::thing_of(w, sense_of(st.bindings, env), node) is None
            } else {
                &&& reading::thing_of(w, sense_of(st.bindings, env), node) == Some(
                    thing_in(env, slot),
                )
                &&& sound_slot(cx, st.names, env, slot)
            },
            None => reading::thing_of(w, sense_of(st.bindings, env), node) is None,
        },
    decreases node.0,
{
    if !cx.ast.constant(node) {
        match cx.ast.kind(node) {
            ExprKind::Var(symbol) => lemma_variable_thing(cx, st, s, env, here, symbol),
            ExprKind::Fact(_, _) => {
                if let Some(row) = model::hoisted_row(st.hoisted, node) {
                    lemma_variable_thing(cx, st, s, env, here, row);
                }
            },
            ExprKind::Access(field, base) => if base.0 < node.0 {
                lemma_resolve_only(cx, s, base);
                let (s1, found) = model::resolve(cx, s, base);
                if let Some(slot) = found {
                    lemma_dereference_only(cx, s1, node, slot);
                    let (s2, place) = model::dereference(cx, s1, node, slot);
                    if let (FieldRef::Key(name), Some(inner)) = (field, place) {
                        lemma_field_slot_only(cx, s2, node, inner, name);
                    }
                    lemma_thing(cx, st, s, env, w, here, base);
                    if at_here(slot, here) {
                        if let Slot::Field { path, .. } = slot {
                            lemma_nothing_fetched(cx, st, env, here, path);
                        }
                    } else {
                        lemma_followed_thing(cx, st, s1, env, w, node, slot);
                        if let (FieldRef::Key(name), Some(inner)) = (field, place) {
                            lemma_piece_thing(cx, st, s2, env, w, node, inner, name);
                        }
                    }
                } else {
                    lemma_thing(cx, st, s, env, w, here, base);
                }
            },
            _ => {},
        }
    }
}

proof fn lemma_variable_thing(
    cx: Cx,
    st: St,
    s: St,
    env: Seq<Option<Fact>>,
    here: Address,
    symbol: Symbol,
)
    requires
        sound(cx, st, env),
        machine::held(env, here) is Err,
        follows(st, s, here),
    ensures
        match model::lookup(s.bindings, symbol) {
            Some(slot) => if at_here(slot, here) {
                model::lookup(st.bindings, symbol) is None
            } else {
                &&& model::lookup(st.bindings, symbol) == Some(slot)
                &&& sound_slot(cx, st.names, env, slot)
            },
            None => model::lookup(st.bindings, symbol) is None,
        },
{
    lemma_lookup_follows(st.bindings, s.bindings, here, symbol);
    lemma_lookup_sound(cx, st.names, env, st.bindings, symbol);
}

/// Every pattern a variable is constrained by is a prefix.
proof fn lemma_patterns_are_prefixes(cx: Cx, constraints: Seq<(Symbol, NodeId)>, symbol: Symbol)
    requires
        forall|i: int|
            0 <= i < constraints.len() ==> cx.ast.kind((#[trigger] constraints[i]).1) is Prefix,
    ensures
        forall|i: int|
            0 <= i < model::patterns_of(constraints, symbol).len() ==> cx.ast.kind(
                #[trigger] model::patterns_of(constraints, symbol)[i],
            ) is Prefix,
    decreases constraints.len(),
{
    if constraints.len() > 0 {
        let shorter = constraints.drop_last();
        assert forall|i: int| 0 <= i < shorter.len() implies cx.ast.kind(
            (#[trigger] shorter[i]).1,
        ) is Prefix by {
            assert(shorter[i] == constraints[i]);
        }
        lemma_patterns_are_prefixes(cx, shorter, symbol);
        assert(cx.ast.kind(constraints[constraints.len() - 1].1) is Prefix);
    }
}

/// A prefix narrows to the strings that begin with it.
proof fn lemma_prefix_pattern(
    cx: Cx,
    st: St,
    s: St,
    env: Seq<Option<Fact>>,
    node: NodeId,
    ty: PredicateTy,
    path: FieldPath,
    level: Seek,
    fact: Fact,
    v: Datum,
    off: nat,
)
    requires
        s.names == st.names,
        cx.ast.kind(node) is Prefix,
        model::constant(cx, s, node, ty) is Some,
        model::bytes_sealed(model::constant(cx, s, node, ty)->0),
        tuple::fits(st.names, v, ty),
        readable(env, level, fact),
        aligned(env, level, fact, off),
        stands(level, fact, v, off),
        layout::holds_at(fact.key(), path@, v),
    ensures
        ({
            let after = model::narrow_by(model::constant(cx, s, node, ty)->0, path, level);
            &&& readable(env, after, fact)
            &&& !after.building
            &&& finds(env, after, fact) <==> finds(env, level, fact) && reading::begins(
                st.names,
                cx.ast.kind(node)->Prefix_0,
                v,
            )
        }),
{
    let symbol = cx.ast.kind(node)->Prefix_0;
    let text = st.names.text(symbol)->0;
    lemma_prefixed(env, level, path, text, fact, v->Str_0, off);
}

/// Narrowing by constraints finds the values they allow.
proof fn lemma_constrained(
    cx: Cx,
    st: St,
    s: St,
    env: Seq<Option<Fact>>,
    patterns: Seq<NodeId>,
    k: nat,
    ty: PredicateTy,
    path: FieldPath,
    level: Seek,
    fact: Fact,
    v: Datum,
    off: nat,
)
    requires
        s.names == st.names,
        forall|i: int| 0 <= i < patterns.len() ==> cx.ast.kind(#[trigger] patterns[i]) is Prefix,
        k <= patterns.len(),
        tuple::fits(st.names, v, ty),
        readable(env, level, fact),
        aligned(env, level, fact, off),
        stands(level, fact, v, off),
        layout::holds_at(fact.key(), path@, v),
        scope::clean(s, model::constrain_each(cx, s, patterns, k, ty, path, level).0),
    ensures
        ({
            let (s1, after) = model::constrain_each(cx, s, patterns, k, ty, path, level);
            &&& s1 == s
            &&& readable(env, after, fact)
            &&& k == 0 ==> after == level
            &&& k > 0 ==> !after.building
            &&& finds(env, after, fact) <==> finds(env, level, fact) && (forall|i: int|
                0 <= i < k ==> (cx.ast.kind(#[trigger] patterns[i]) matches ExprKind::Prefix(
                    text,
                ) && reading::begins(st.names, text, v)))
        }),
    decreases k,
{
    if k > 0 {
        let j = (k - 1) as nat;
        lemma_constrain_reports(cx, s, patterns, j, ty, path, level);
        let (s1, l1) = model::constrain_each(cx, s, patterns, j, ty, path, level);
        lemma_constrained(cx, st, s, env, patterns, j, ty, path, level, fact, v, off);
        assert(model::constant(cx, s1, patterns[k - 1], ty) is Some);
        lemma_prefix_pattern(cx, st, s, env, patterns[k - 1], ty, path, l1, fact, v, off);
        let all = forall|i: int|
            0 <= i < k ==> (cx.ast.kind(#[trigger] patterns[i]) matches ExprKind::Prefix(text)
                && reading::begins(st.names, text, v));
        let some = forall|i: int|
            0 <= i < j ==> (cx.ast.kind(#[trigger] patterns[i]) matches ExprKind::Prefix(text)
                && reading::begins(st.names, text, v));
        let last = reading::begins(st.names, cx.ast.kind(patterns[k - 1])->Prefix_0, v);
        if some && last {
            assert forall|i: int| 0 <= i < k implies (cx.ast.kind(#[trigger] patterns[i]) matches
                ExprKind::Prefix(text) && reading::begins(st.names, text, v)) by {
                if i == k - 1 {
                    assert(cx.ast.kind(patterns[k - 1]) is Prefix);
                }
            }
        }
        if all {
            assert(cx.ast.kind(patterns[k - 1]) matches ExprKind::Prefix(text) && reading::begins(
                st.names,
                text,
                v,
            ));
        }
    }
}

pub proof fn lemma_constrain_reports(
    cx: Cx,
    s: St,
    patterns: Seq<NodeId>,
    k: nat,
    ty: PredicateTy,
    path: FieldPath,
    level: Seek,
)
    ensures
        scope::further(s, model::constrain_each(
            cx,
            s,
            patterns,
            k,
            ty,
            path,
            level,
        ).0),
    decreases k,
{
    if k > 0 {
        lemma_constrain_reports(cx, s, patterns, (k - 1) as nat, ty, path, level);
    }
}

/// A walk takes no report back.
pub proof fn lemma_field_grows(
    cx: Cx,
    s: St,
    node: NodeId,
    ty: PredicateTy,
    here: Address,
    path: FieldPath,
    level: Seek,
)
    ensures
        scope::further(s, model::field(cx, s, node, ty, here, path, level).0),
    decreases model::rank(cx, node), node.0, 3nat, 0nat,
{
    match cx.ast.kind(node) {
        ExprKind::Wildcard | ExprKind::Prefix(_) | ExprKind::Disjunction(_) | ExprKind::Never => {},
        kind => if kind is Var && model::lookup(s.bindings, kind->Var_0) is None {
            let symbol = kind->Var_0;
            let bound = s.binding(symbol, Slot::Field { address: here, path, ty });
            let patterns = model::patterns_of(bound.constraints, symbol);
            lemma_constrain_reports(
                cx,
                St { constrained: bound.constrained.push(symbol), ..bound },
                patterns,
                patterns.len(),
                ty,
                path,
                level,
            );
        } else {
            lemma_resolve_only(cx, s, node);
            let (s1, found) = model::resolve(cx, s, node);
            match found {
                Some(slot) => {
                    if let Slot::Const(folded) = slot {
                        lemma_resolve_smaller(cx, s, node);
                        if cx.ast.constant(folded) {
                            if cx.ast.constant(node) {
                                lemma_partial_grows(cx, s1, folded, ty, here, path, level);
                            } else {
                                lemma_partial_grows(cx, s1, folded, ty, here, path, level);
                            }
                        }
                    }
                },
                None => if kind is Record {
                    lemma_partial_grows(cx, s1, node, ty, here, path, level);
                },
            }
        },
    }
}

/// A constant resolves to itself.
pub proof fn lemma_resolve_smaller(cx: Cx, s: St, node: NodeId)
    ensures
        cx.ast.constant(node) ==> model::resolve(cx, s, node).1 == Some(Slot::Const(node)),
        !cx.ast.constant(node) ==> model::rank(cx, node) == 1,
{
}

pub proof fn lemma_partial_grows(
    cx: Cx,
    s: St,
    node: NodeId,
    ty: PredicateTy,
    here: Address,
    path: FieldPath,
    level: Seek,
)
    ensures
        scope::further(s, model::partial(cx, s, node, ty, here, path, level).0),
    decreases model::rank(cx, node), node.0, 1nat, 0nat,
{
    if let (ExprKind::Record(fields), PredicateTy::Record(tys)) = (cx.ast.kind(node), ty) {
        lemma_partial_fields_grow(
            cx,
            s,
            node,
            fields@,
            tys@,
            tys@.len(),
            here,
            path,
            level.closed(),
        );
    }
}

pub proof fn lemma_partial_fields_grow(
    cx: Cx,
    s: St,
    node: NodeId,
    fields: Seq<(Symbol, NodeId)>,
    tys: Seq<(NameKey, PredicateTy)>,
    k: nat,
    here: Address,
    path: FieldPath,
    level: Seek,
)
    ensures
        scope::further(s, model::partial_fields(
            cx,
            s,
            node,
            fields,
            tys,
            k,
            here,
            path,
            level,
        ).0),
    decreases model::rank(cx, node), node.0, 0nat, k,
{
    if k > 0 {
        lemma_partial_fields_grow(
            cx,
            s,
            node,
            fields,
            tys,
            (k - 1) as nat,
            here,
            path,
            level,
        );
        let (s1, l1) = model::partial_fields(
            cx,
            s,
            node,
            fields,
            tys,
            (k - 1) as nat,
            here,
            path,
            level,
        );
        if let Some(piece) = model::field_pattern(fields, Symbol::Schema(tys[k - 1].0)) {
            if model::below(cx, node, piece) {
                lemma_field_grows(
                    cx,
                    s1.sealing(
                        FieldPath::sealed(path.top(), path.inner().push((k - 1) as usize)),
                    ),
                    piece,
                    tys[k - 1].1,
                    here,
                    FieldPath::of(path.top(), path.inner().push((k - 1) as usize)),
                    l1,
                );
            }
        }
    }
}

/// Closing a seek changes nothing it finds.
proof fn lemma_closed(env: Seq<Option<Fact>>, level: Seek, fact: Fact, end: nat)
    requires
        readable(env, level, fact),
    ensures
        readable(env, level.closed(), fact),
        aligned(env, level.closed(), fact, end),
        finds(env, level.closed(), fact) == finds(env, level, fact),
{
}

/// Where the walk of one pattern begins.
spec fn begun(
    cx: Cx,
    st: St,
    s: St,
    env: Seq<Option<Fact>>,
    w: World,
    ty: PredicateTy,
    here: Address,
    path: FieldPath,
    level: Seek,
    fact: Fact,
    v: Datum,
    off: nat,
) -> bool {
    &&& grounded(cx, st, env, w, here)
    &&& follows(st, s, here)
    &&& tuple::fits(st.names, v, ty)
    &&& layout::holds_at(fact.key(), path@, v)
    &&& readable(env, level, fact)
    &&& aligned(env, level, fact, off)
    &&& stands(level, fact, v, off)
}

/// A value already somewhere narrows to itself.
proof fn lemma_matched(
    cx: Cx,
    st: St,
    s: St,
    env: Seq<Option<Fact>>,
    w: World,
    node: NodeId,
    slot: Slot,
    ty: PredicateTy,
    here: Address,
    path: FieldPath,
    level: Seek,
    fact: Fact,
    v: Datum,
    off: nat,
)
    requires
        begun(cx, st, s, env, w, ty, here, path, level, fact, v, off),
        at_here(slot, here) || sound_slot(cx, st.names, env, slot),
        scope::clean(s, model::matched(cx, s, node, slot, ty, here, path, level).0),
    ensures
        !at_here(slot, here),
        ({
            let (s1, after) = model::matched(cx, s, node, slot, ty, here, path, level);
            walked(
                st,
                s1,
                env,
                here,
                level,
                after,
                fact,
                off + tuple::enc(v).len(),
                match slot {
                    Slot::Const(folded) => cx.ast.constant(folded) && reading::means(
                        w,
                        sense_of(st.bindings, env),
                        folded,
                        ty,
                        v,
                    ),
                    _ => reading::thing_is(thing_in(env, slot), v),
                },
            )
        }),
    decreases
            0nat,
            (match slot {
                Slot::Const(folded) => folded.0 as nat,
                _ => 0,
            }),
            2nat,
            0nat,
{
    match slot {
        Slot::Field { address: from, path: at, ty: held_ty } => {
            let other = machine::held(env, from)->Ok_0;
            let d = choose|d: Datum|
                #[trigger] layout::holds_at(other.key(), at@, d) && tuple::fits(
                    st.names,
                    d,
                    held_ty,
                );
            assert(tuple::path_bytes(other.key(), at@) == Ok::<Seq<u8>, ApertureError>(
                tuple::enc(d),
            ));
            lemma_narrowed(
                env,
                level,
                SeekKeyPart::RegisterField { address: from, path: at },
                path,
                ResidualOp::EqRegisterField { address: from, path: at },
                fact,
                v,
                d,
                off,
            );
        },
        Slot::Row { address: from, predicate } => {
            let other = machine::held(env, from)->Ok_0;
            lemma_narrowed(
                env,
                level,
                SeekKeyPart::RegisterFactId(from),
                path,
                ResidualOp::EqRegisterFactId(from),
                fact,
                v,
                Datum::FactRef(other.id),
                off,
            );
        },
        Slot::Const(folded) => {
            lemma_constant_same(cx, st, s, folded, ty);
            match model::constant(cx, s, folded, ty) {
                Some(found) => {
                    let d = lemma_constant(cx, st, env, w, folded, ty, v);
                    let b = tuple::enc(d);
                    assert(boxed::boxed(b)@ == b);
                    lemma_narrowed(
                        env,
                        level,
                        SeekKeyPart::Bytes(boxed::boxed(b)),
                        path,
                        ResidualOp::EqConst(boxed::boxed(b)),
                        fact,
                        v,
                        d,
                        off,
                    );
                },
                None => {
                    lemma_partial(
                        cx,
                        st,
                        s,
                        env,
                        w,
                        folded,
                        ty,
                        here,
                        path,
                        level,
                        fact,
                        v,
                        off,
                    );
                },
            }
        },
        _ => {},
    }
}

/// A pattern that gives only some pieces, or none that can be read.
proof fn lemma_partial(
    cx: Cx,
    st: St,
    s: St,
    env: Seq<Option<Fact>>,
    w: World,
    node: NodeId,
    ty: PredicateTy,
    here: Address,
    path: FieldPath,
    level: Seek,
    fact: Fact,
    v: Datum,
    off: nat,
)
    requires
        begun(cx, st, s, env, w, ty, here, path, level, fact, v, off),
        cx.ast.kind(node) is Record || (cx.ast.constant(node) && model::constant(
            cx,
            s,
            node,
            ty,
        ) is None),
        scope::clean(s, model::partial(cx, s, node, ty, here, path, level).0),
    ensures
        ({
            let (s1, after) = model::partial(cx, s, node, ty, here, path, level);
            walked(
                st,
                s1,
                env,
                here,
                level,
                after,
                fact,
                off + tuple::enc(v).len(),
                reading::means(w, sense_of(st.bindings, env), node, ty, v),
            )
        }),
    decreases model::rank(cx, node), node.0, 1nat, 0nat,
{
    lemma_closed(env, level, fact, off + tuple::enc(v).len());
    if let (ExprKind::Record(fields), PredicateTy::Record(tys)) = (cx.ast.kind(node), ty) {
        lemma_partial_fields(
            cx,
            st,
            s,
            env,
            w,
            node,
            fields@,
            ty,
            tys@.len(),
            here,
            path,
            level.closed(),
            fact,
            v,
        );
    }
}

proof fn lemma_partial_fields(
    cx: Cx,
    st: St,
    s: St,
    env: Seq<Option<Fact>>,
    w: World,
    node: NodeId,
    fields: Seq<(Symbol, NodeId)>,
    ty: PredicateTy,
    k: nat,
    here: Address,
    path: FieldPath,
    level: Seek,
    fact: Fact,
    v: Datum,
)
    requires
        begun(cx, st, s, env, w, ty, here, path, level, fact, v, 0),
        !level.building,
        ty is Record,
        k <= ty->Record_0@.len(),
        scope::clean(s, model::partial_fields(
            cx,
            s,
            node,
            fields,
            ty->Record_0@,
            k,
            here,
            path,
            level,
        ).0),
    ensures
        ({
            let tys = ty->Record_0@;
            let (s1, after) = model::partial_fields(
                cx,
                s,
                node,
                fields,
                tys,
                k,
                here,
                path,
                level,
            );
            &&& !after.building
            &&& walked(
                st,
                s1,
                env,
                here,
                level,
                after,
                fact,
                0,
                reading::means_fields(
                    w,
                    sense_of(st.bindings, env),
                    node,
                    fields,
                    tys,
                    v->Record_0,
                    k,
                ),
            )
        }),
    decreases model::rank(cx, node), node.0, 0nat, k,
{
    if k > 0 {
        let tys = ty->Record_0@;
        let values = v->Record_0;
        let j = (k - 1) as nat;
        let (s1, l1) = model::partial_fields(cx, s, node, fields, tys, j, here, path, level);
        let found = model::field_pattern(fields, Symbol::Schema(tys[k - 1].0));
        let steps = path.inner().push(j as usize);
        let inner = FieldPath::of(path.top(), steps);
        let held = s1.sealing(FieldPath::sealed(path.top(), steps));
        lemma_partial_fields_grow(cx, s, node, fields, tys, j, here, path, level);
        if let Some(piece) = found {
            if model::below(cx, node, piece) {
                lemma_field_grows(cx, held, piece, tys[k - 1].1, here, inner, l1);
                assert(held == s1);
            }
        }
        lemma_partial_fields(
            cx,
            st,
            s,
            env,
            w,
            node,
            fields,
            ty,
            j,
            here,
            path,
            level,
            fact,
            v,
        );
        if let Some(piece) = found {
            if model::below(cx, node, piece) {
                assert(ty->Record_0.len() == tys.len());
                FieldPath::lemma_of(path.top(), steps);
                layout::lemma_deeper(fact.key(), path@, v, inner@, j as usize);
                assert(tuple::fits(st.names, values[k - 1].1, tys[k - 1].1));
                lemma_field(
                    cx,
                    st,
                    s1,
                    env,
                    w,
                    piece,
                    tys[k - 1].1,
                    here,
                    inner,
                    l1,
                    fact,
                    values[k - 1].1,
                    0,
                );
                lemma_field_closed(cx, s1, piece, tys[k - 1].1, here, inner, l1);
            }
        }
    }
}

/// A closed seek stays closed.
proof fn lemma_field_closed(
    cx: Cx,
    s: St,
    node: NodeId,
    ty: PredicateTy,
    here: Address,
    path: FieldPath,
    level: Seek,
)
    requires
        !level.building,
    ensures
        !model::field(cx, s, node, ty, here, path, level).1.building,
    decreases model::rank(cx, node), node.0, 3nat, 0nat,
{
    match cx.ast.kind(node) {
        ExprKind::Wildcard | ExprKind::Prefix(_) | ExprKind::Disjunction(_) | ExprKind::Never => {},
        kind => if kind is Var && model::lookup(s.bindings, kind->Var_0) is None {
            let symbol = kind->Var_0;
            let bound = s.binding(symbol, Slot::Field { address: here, path, ty });
            let patterns = model::patterns_of(bound.constraints, symbol);
            lemma_constrain_closed(
                cx,
                St { constrained: bound.constrained.push(symbol), ..bound },
                patterns,
                patterns.len(),
                ty,
                path,
                level,
            );
        } else {
            lemma_resolve_smaller(cx, s, node);
            let (s1, found) = model::resolve(cx, s, node);
            match found {
                Some(Slot::Const(folded)) => if cx.ast.constant(folded) {
                    lemma_partial_closed(cx, s1, folded, ty, here, path, level);
                },
                None => if kind is Record {
                    lemma_partial_closed(cx, s1, node, ty, here, path, level);
                },
                _ => {},
            }
        },
    }
}

proof fn lemma_constrain_closed(
    cx: Cx,
    s: St,
    patterns: Seq<NodeId>,
    k: nat,
    ty: PredicateTy,
    path: FieldPath,
    level: Seek,
)
    requires
        !level.building,
    ensures
        !model::constrain_each(cx, s, patterns, k, ty, path, level).1.building,
    decreases k,
{
    if k > 0 {
        lemma_constrain_closed(cx, s, patterns, (k - 1) as nat, ty, path, level);
    }
}

proof fn lemma_partial_closed(
    cx: Cx,
    s: St,
    node: NodeId,
    ty: PredicateTy,
    here: Address,
    path: FieldPath,
    level: Seek,
)
    ensures
        !model::partial(cx, s, node, ty, here, path, level).1.building,
    decreases model::rank(cx, node), node.0, 1nat, 0nat,
{
    if let (ExprKind::Record(fields), PredicateTy::Record(tys)) = (cx.ast.kind(node), ty) {
        lemma_partial_fields_closed(
            cx,
            s,
            node,
            fields@,
            tys@,
            tys@.len(),
            here,
            path,
            level.closed(),
        );
    }
}

proof fn lemma_partial_fields_closed(
    cx: Cx,
    s: St,
    node: NodeId,
    fields: Seq<(Symbol, NodeId)>,
    tys: Seq<(NameKey, PredicateTy)>,
    k: nat,
    here: Address,
    path: FieldPath,
    level: Seek,
)
    requires
        !level.building,
    ensures
        !model::partial_fields(cx, s, node, fields, tys, k, here, path, level).1.building,
    decreases model::rank(cx, node), node.0, 0nat, k,
{
    if k > 0 {
        let j = (k - 1) as nat;
        lemma_partial_fields_closed(cx, s, node, fields, tys, j, here, path, level);
        let (s1, l1) = model::partial_fields(cx, s, node, fields, tys, j, here, path, level);
        if let Some(piece) = model::field_pattern(fields, Symbol::Schema(tys[k - 1].0)) {
            if model::below(cx, node, piece) {
                let steps = path.inner().push(j as usize);
                lemma_field_closed(
                    cx,
                    s1.sealing(FieldPath::sealed(path.top(), steps)),
                    piece,
                    tys[k - 1].1,
                    here,
                    FieldPath::of(path.top(), steps),
                    l1,
                );
            }
        }
    }
}

/// One field of a key: what it narrows to is what its pattern matches.
#[verifier::rlimit(40)]
proof fn lemma_field(
    cx: Cx,
    st: St,
    s: St,
    env: Seq<Option<Fact>>,
    w: World,
    node: NodeId,
    ty: PredicateTy,
    here: Address,
    path: FieldPath,
    level: Seek,
    fact: Fact,
    v: Datum,
    off: nat,
)
    requires
        begun(cx, st, s, env, w, ty, here, path, level, fact, v, off),
        scope::clean(s, model::field(cx, s, node, ty, here, path, level).0),
    ensures
        ({
            let (s1, after) = model::field(cx, s, node, ty, here, path, level);
            walked(
                st,
                s1,
                env,
                here,
                level,
                after,
                fact,
                off + tuple::enc(v).len(),
                reading::means(w, sense_of(st.bindings, env), node, ty, v),
            )
        }),
    decreases model::rank(cx, node), node.0, 3nat, 0nat,
{
    let end = off + tuple::enc(v).len();
    lemma_closed(env, level, fact, end);
    match cx.ast.kind(node) {
        ExprKind::Wildcard | ExprKind::Disjunction(_) | ExprKind::Never => {},
        ExprKind::Prefix(_) => lemma_prefix_pattern(
            cx,
            st,
            s,
            env,
            node,
            ty,
            path,
            level,
            fact,
            v,
            off,
        ),
        kind => if kind is Var && model::lookup(s.bindings, kind->Var_0) is None {
            let symbol = kind->Var_0;
            lemma_lookup_follows(st.bindings, s.bindings, here, symbol);
            let slot = Slot::Field { address: here, path, ty };
            let bound = s.binding(symbol, slot);
            lemma_captured(st, s, here, symbol, slot);
            let patterns = model::patterns_of(st.constraints, symbol);
            lemma_patterns_are_prefixes(cx, st.constraints, symbol);
            if patterns.len() > 0 {
                let marked = St { constrained: bound.constrained.push(symbol), ..bound };
                lemma_constrained(
                    cx,
                    st,
                    marked,
                    env,
                    patterns,
                    patterns.len(),
                    ty,
                    path,
                    level,
                    fact,
                    v,
                    off,
                );
            }
        } else {
            lemma_resolve_only(cx, s, node);
            lemma_resolve_smaller(cx, s, node);
            let (s1, found) = model::resolve(cx, s, node);
            lemma_field_settles(cx, s, s1, node, found, ty, here, path, level);
            lemma_thing(cx, st, s, env, w, here, node);
            if kind is Var {
                lemma_lookup_follows(st.bindings, s.bindings, here, kind->Var_0);
            }
            match found {
                Some(slot) => lemma_matched(
                    cx,
                    st,
                    s1,
                    env,
                    w,
                    node,
                    slot,
                    ty,
                    here,
                    path,
                    level,
                    fact,
                    v,
                    off,
                ),
                None => if kind is Record {
                    lemma_partial(
                        cx,
                        st,
                        s1,
                        env,
                        w,
                        node,
                        ty,
                        here,
                        path,
                        level,
                        fact,
                        v,
                        off,
                    );
                },
            }
        },
    }
}

/// A constant names no variable.
pub proof fn lemma_constant_takes(
    w: World,
    sense: Sense,
    node: NodeId,
    ty: PredicateTy,
    path: Route,
)
    requires
        w.cx.ast.constant(node),
    ensures
        reading::takes(w, sense, node, ty, path) == Seq::<(Symbol, Place)>::empty(),
    decreases node.0, 1nat, 0nat,
{
    if let (ExprKind::Record(fields), PredicateTy::Record(tys)) = (w.cx.ast.kind(node), ty) {
        lemma_constant_fields_take(w, sense, node, fields@, tys@, tys@.len(), path);
    }
}

proof fn lemma_constant_fields_take(
    w: World,
    sense: Sense,
    node: NodeId,
    fields: Seq<(Symbol, NodeId)>,
    tys: Seq<(NameKey, PredicateTy)>,
    k: nat,
    path: Route,
)
    requires
        forall|i: int|
            0 <= i < fields.len() ==> (#[trigger] fields[i]).1.0 < node.0 && w.cx.ast.constant(
                fields[i].1,
            ),
    ensures
        reading::takes_fields(w, sense, node, fields, tys, k, path) == Seq::<
            (Symbol, Place),
        >::empty(),
    decreases node.0, 0nat, k,
{
    if k > 0 {
        lemma_constant_fields_take(w, sense, node, fields, tys, (k - 1) as nat, path);
        let name = Symbol::Schema(tys[k - 1].0);
        lemma_piece_constant(w.cx, node, fields, name);
        if let Some(inner) = model::field_pattern(fields, name) {
            lemma_constant_takes(
                w,
                sense,
                inner,
                tys[k - 1].1,
                Route::of(path.top(), path.inner().push((k - 1) as usize)),
            );
        }
        assert(reading::takes_fields(w, sense, node, fields, tys, k, path) =~= Seq::<
            (Symbol, Place),
        >::empty());
    }
}

/// One place of the row being matched more.
proof fn lemma_captured(st: St, s: St, here: Address, symbol: Symbol, slot: Slot)
    requires
        follows(st, s, here),
        at_here(slot, here),
        model::lookup(st.bindings, symbol) is None,
    ensures
        follows(st, s.binding(symbol, slot), here),
{
    let more = s.bindings.push((symbol, slot));
    assert(more.take(st.bindings.len() as int) =~= s.bindings.take(st.bindings.len() as int));
}

/// Where nothing was reported of a field, nothing was of resolving it.
proof fn lemma_field_settles(
    cx: Cx,
    s: St,
    s1: St,
    node: NodeId,
    found: Option<Slot>,
    ty: PredicateTy,
    here: Address,
    path: FieldPath,
    level: Seek,
)
    requires
        reported(s, s1),
    ensures
        match found {
            Some(slot) => scope::further(s1, model::matched(
                cx,
                s1,
                node,
                slot,
                ty,
                here,
                path,
                level,
            ).0),
            None => scope::further(s1, model::partial(
                cx,
                s1,
                node,
                ty,
                here,
                path,
                level,
            ).0),
        },
{
    match found {
        Some(Slot::Const(folded)) => if cx.ast.constant(folded) {
            lemma_partial_grows(cx, s1, folded, ty, here, path, level);
        },
        None => lemma_partial_grows(cx, s1, node, ty, here, path, level),
        _ => {},
    }
}

// ---- whole keys -------------------------------------------------------------

pub proof fn lemma_key_fields_grow(
    cx: Cx,
    s: St,
    fields: Seq<(Symbol, NodeId)>,
    tys: Seq<(NameKey, PredicateTy)>,
    k: nat,
    here: Address,
    level: Seek,
)
    ensures
        scope::further(s, model::key_fields(
            cx,
            s,
            fields,
            tys,
            k,
            here,
            level,
        ).0),
    decreases k,
{
    if k > 0 {
        lemma_key_fields_grow(cx, s, fields, tys, (k - 1) as nat, here, level);
        let (s1, l1) = model::key_fields(cx, s, fields, tys, (k - 1) as nat, here, level);
        if let Some(pattern) = model::field_pattern(fields, Symbol::Schema(tys[k - 1].0)) {
            lemma_field_grows(
                cx,
                s1.sealing(FieldPath::sealed((k - 1) as usize, Seq::empty())),
                pattern,
                tys[k - 1].1,
                here,
                FieldPath::of((k - 1) as usize, Seq::empty()),
                l1,
            );
        }
    }
}

/// A piece of a record pattern stands before it, and is constant if it is.
pub proof fn lemma_below(cx: Cx, node: NodeId, name: Symbol)
    requires
        cx.ast.wf(),
        cx.ast.has(node),
        cx.ast.kind(node) is Record,
    ensures
        model::field_pattern(cx.ast.kind(node)->Record_0@, name) matches Some(piece)
            ==> model::below(cx, node, piece),
{
    let fields = cx.ast.kind(node)->Record_0@;
    assert(crate::syntax::children_below(cx.ast.tree().kinds()[node.0 as int], node.0 as nat));
    lemma_piece_among(fields, name);
    if let Some(piece) = model::field_pattern(fields, name) {
        let i = choose|i: int| 0 <= i < fields.len() && (#[trigger] fields[i]).1 == piece;
        assert(fields[i].1.0 < node.0);
    }
}

pub proof fn lemma_piece_among(fields: Seq<(Symbol, NodeId)>, name: Symbol)
    ensures
        model::field_pattern(fields, name) matches Some(piece) ==> exists|i: int|
            0 <= i < fields.len() && (#[trigger] fields[i]).1 == piece,
    decreases fields.len(),
{
    if fields.len() > 0 {
        let shorter = fields.drop_last();
        lemma_piece_among(shorter, name);
        if let Some(piece) = model::field_pattern(shorter, name) {
            let i = choose|i: int| 0 <= i < shorter.len() && (#[trigger] shorter[i]).1 == piece;
            assert(fields[i].1 == piece);
        } else {
            assert(fields[fields.len() - 1].1 == fields.last().1);
        }
    }
}

/// What the walk of a key begins with.
spec fn begun_key(
    cx: Cx,
    st: St,
    s: St,
    env: Seq<Option<Fact>>,
    w: World,
    ty: PredicateTy,
    here: Address,
    fact: Fact,
    v: Datum,
) -> bool {
    &&& grounded(cx, st, env, w, here)
    &&& follows(st, s, here)
    &&& layout::key_is(st.names, fact.key(), ty, v)
}

/// One field of a record key, at its place.
proof fn lemma_at_field(
    cx: Cx,
    st: St,
    s: St,
    env: Seq<Option<Fact>>,
    w: World,
    ty: PredicateTy,
    here: Address,
    level: Seek,
    fact: Fact,
    v: Datum,
    k: nat,
)
    requires
        begun_key(cx, st, s, env, w, ty, here, fact, v),
        ty is Record,
        k < ty->Record_0@.len(),
        readable(env, level, fact),
        aligned(env, level, fact, layout::reach(v, k)),
        FieldPath::sealed(k as usize, Seq::empty()),
    ensures
        begun(
            cx,
            st,
            s,
            env,
            w,
            ty->Record_0@[k as int].1,
            here,
            FieldPath::of(k as usize, Seq::empty()),
            level,
            fact,
            v->Record_0[k as int].1,
            layout::reach(v, k),
        ),
        layout::reach(v, k) + tuple::enc(v->Record_0[k as int].1).len() == layout::reach(v, k + 1),
{
    let tys = ty->Record_0;
    assert(tys.len() == tys@.len());
    let none = Seq::<usize>::empty();
    FieldPath::lemma_of(k as usize, none);
    layout::lemma_top(fact.key(), v, FieldPath::of(k as usize, none)@);
    layout::lemma_flat(fact.key(), v, k);
    assert(tuple::fits(st.names, v->Record_0[k as int].1, tys@[k as int].1));
}

proof fn lemma_key_fields(
    cx: Cx,
    st: St,
    s: St,
    env: Seq<Option<Fact>>,
    w: World,
    node: NodeId,
    ty: PredicateTy,
    k: nat,
    here: Address,
    level: Seek,
    fact: Fact,
    v: Datum,
)
    requires
        cx.ast.wf(),
        cx.ast.has(node),
        cx.ast.kind(node) is Record,
        begun_key(cx, st, s, env, w, ty, here, fact, v),
        ty is Record,
        k <= ty->Record_0@.len(),
        readable(env, level, fact),
        aligned(env, level, fact, 0),
        scope::clean(s, model::key_fields(
            cx,
            s,
            cx.ast.kind(node)->Record_0@,
            ty->Record_0@,
            k,
            here,
            level,
        ).0),
    ensures
        ({
            let fields = cx.ast.kind(node)->Record_0@;
            let tys = ty->Record_0@;
            let (s1, after) = model::key_fields(cx, s, fields, tys, k, here, level);
            walked(
                st,
                s1,
                env,
                here,
                level,
                after,
                fact,
                layout::reach(v, k),
                reading::means_fields(
                    w,
                    sense_of(st.bindings, env),
                    node,
                    fields,
                    tys,
                    v->Record_0,
                    k,
                ),
            )
        }),
    decreases k,
{
    let fields = cx.ast.kind(node)->Record_0@;
    let tys = ty->Record_0@;
    if k == 0 {
        assert(tuple::values_of(v->Record_0).take(0) =~= Seq::<Datum>::empty());
    } else {
        let j = (k - 1) as nat;
        let name = Symbol::Schema(tys[k - 1].0);
        let path = FieldPath::of(j as usize, Seq::empty());
        let (s1, l1) = model::key_fields(cx, s, fields, tys, j, here, level);
        lemma_key_fields_grow(cx, s, fields, tys, j, here, level);
        let held = s1.sealing(FieldPath::sealed(j as usize, Seq::empty()));
        if let Some(pattern) = model::field_pattern(fields, name) {
            lemma_field_grows(cx, held, pattern, tys[k - 1].1, here, path, l1);
            assert(held == s1);
        }
        lemma_key_fields(cx, st, s, env, w, node, ty, j, here, level, fact, v);
        lemma_below(cx, node, name);
        match model::field_pattern(fields, name) {
            Some(pattern) => {
                lemma_at_field(cx, st, s1, env, w, ty, here, l1, fact, v, j);
                lemma_field(
                    cx,
                    st,
                    s1,
                    env,
                    w,
                    pattern,
                    tys[k - 1].1,
                    here,
                    path,
                    l1,
                    fact,
                    v->Record_0[j as int].1,
                    layout::reach(v, j),
                );
            },
            None => lemma_closed(env, l1, fact, layout::reach(v, k)),
        }
    }
}

pub proof fn lemma_matched_grows(
    cx: Cx,
    s: St,
    node: NodeId,
    slot: Slot,
    ty: PredicateTy,
    here: Address,
    path: FieldPath,
    level: Seek,
)
    ensures
        scope::further(s, model::matched(cx, s, node, slot, ty, here, path, level).0),
{
    if let Slot::Const(folded) = slot {
        if cx.ast.constant(folded) {
            lemma_partial_grows(cx, s, folded, ty, here, path, level);
        }
    }
}

pub proof fn lemma_whole_fields_grow(
    cx: Cx,
    s: St,
    node: NodeId,
    slot: Slot,
    tys: Seq<(NameKey, PredicateTy)>,
    k: nat,
    here: Address,
    level: Seek,
)
    ensures
        scope::further(s, model::whole_fields(
            cx,
            s,
            node,
            slot,
            tys,
            k,
            here,
            level,
        ).0),
    decreases k,
{
    if k > 0 {
        let j = (k - 1) as nat;
        lemma_whole_fields_grow(cx, s, node, slot, tys, j, here, level);
        let (s1, l1) = model::whole_fields(cx, s, node, slot, tys, j, here, level);
        lemma_field_slot_only(cx, s1, node, slot, Symbol::Schema(tys[k - 1].0));
        let (s2, found) = model::field_slot(cx, s1, node, slot, Symbol::Schema(tys[k - 1].0));
        if let Some(inner) = found {
            lemma_matched_grows(
                cx,
                s2.sealing(FieldPath::sealed(j as usize, Seq::empty())),
                node,
                inner,
                tys[k - 1].1,
                here,
                FieldPath::of(j as usize, Seq::empty()),
                l1,
            );
        }
    }
}

/// A whole key matched against a place, field by field.
proof fn lemma_whole_fields(
    cx: Cx,
    st: St,
    s: St,
    env: Seq<Option<Fact>>,
    w: World,
    node: NodeId,
    slot: Slot,
    ty: PredicateTy,
    k: nat,
    here: Address,
    level: Seek,
    fact: Fact,
    v: Datum,
)
    requires
        begun_key(cx, st, s, env, w, ty, here, fact, v),
        sound_slot(cx, st.names, env, slot),
        ty is Record,
        k <= ty->Record_0@.len(),
        readable(env, level, fact),
        aligned(env, level, fact, 0),
        scope::clean(s, model::whole_fields(
            cx,
            s,
            node,
            slot,
            ty->Record_0@,
            k,
            here,
            level,
        ).0),
    ensures
        ({
            let tys = ty->Record_0@;
            let (s1, after) = model::whole_fields(cx, s, node, slot, tys, k, here, level);
            walked(
                st,
                s1,
                env,
                here,
                level,
                after,
                fact,
                layout::reach(v, k),
                forall|i: int|
                    0 <= i < k ==> reading::field_is(
                        w,
                        sense_of(st.bindings, env),
                        reading::piece(
                            w,
                            thing_in(env, slot),
                            Symbol::Schema((#[trigger] tys[i]).0),
                        ),
                        tys[i].1,
                        v->Record_0[i].1,
                    ),
            )
        }),
    decreases k,
{
    let tys = ty->Record_0@;
    if k == 0 {
        assert(tuple::values_of(v->Record_0).take(0) =~= Seq::<Datum>::empty());
    } else {
        let j = (k - 1) as nat;
        let name = Symbol::Schema(tys[k - 1].0);
        let path = FieldPath::of(j as usize, Seq::empty());
        let (s1, l1) = model::whole_fields(cx, s, node, slot, tys, j, here, level);
        let (s2, found) = model::field_slot(cx, s1, node, slot, name);
        lemma_whole_fields_grow(cx, s, node, slot, tys, j, here, level);
        lemma_field_slot_only(cx, s1, node, slot, name);
        let held = s2.sealing(FieldPath::sealed(j as usize, Seq::empty()));
        if let Some(inner) = found {
            lemma_matched_grows(cx, held, node, inner, tys[k - 1].1, here, path, l1);
            assert(held == s2);
        }
        lemma_whole_fields(cx, st, s, env, w, node, slot, ty, j, here, level, fact, v);
        lemma_piece_thing(cx, st, s1, env, w, node, slot, name);
        match found {
            Some(inner) => {
                lemma_at_field(cx, st, s2, env, w, ty, here, l1, fact, v, j);
                lemma_matched(
                    cx,
                    st,
                    s2,
                    env,
                    w,
                    node,
                    inner,
                    tys[k - 1].1,
                    here,
                    path,
                    l1,
                    fact,
                    v->Record_0[j as int].1,
                    layout::reach(v, j),
                );
            },
            None => lemma_closed(env, l1, fact, layout::reach(v, k)),
        }
        let sense = sense_of(st.bindings, env);
        let last = reading::field_is(
            w,
            sense,
            reading::piece(w, thing_in(env, slot), Symbol::Schema(tys[j as int].0)),
            tys[j as int].1,
            v->Record_0[j as int].1,
        );
        assert((forall|i: int| 0 <= i < k ==> reading::field_is(
            w,
            sense,
            reading::piece(w, thing_in(env, slot), Symbol::Schema((#[trigger] tys[i]).0)),
            tys[i].1,
            v->Record_0[i].1,
        )) <==> (forall|i: int| 0 <= i < j ==> reading::field_is(
            w,
            sense,
            reading::piece(w, thing_in(env, slot), Symbol::Schema((#[trigger] tys[i]).0)),
            tys[i].1,
            v->Record_0[i].1,
        )) && last) by {
            assert(tys[j as int] == tys[k - 1]);
        }
    }
}

/// A key matched against a place in its own row: nothing is asked.
proof fn lemma_whole_here(
    cx: Cx,
    st: St,
    s: St,
    env: Seq<Option<Fact>>,
    w: World,
    node: NodeId,
    slot: Slot,
    tys: Seq<(NameKey, PredicateTy)>,
    k: nat,
    here: Address,
    level: Seek,
    fact: Fact,
)
    requires
        grounded(cx, st, env, w, here),
        follows(st, s, here),
        at_here(slot, here),
        readable(env, level, fact),
        scope::clean(s, model::whole_fields(cx, s, node, slot, tys, k, here, level).0),
    ensures
        ({
            let (s1, after) = model::whole_fields(cx, s, node, slot, tys, k, here, level);
            &&& follows(st, s1, here)
            &&& s1.bindings == s.bindings
            &&& readable(env, after, fact)
            &&& finds(env, after, fact) == finds(env, level, fact)
        }),
    decreases k,
{
    if k > 0 {
        let j = (k - 1) as nat;
        let name = Symbol::Schema(tys[k - 1].0);
        let (s1, l1) = model::whole_fields(cx, s, node, slot, tys, j, here, level);
        let (s2, found) = model::field_slot(cx, s1, node, slot, name);
        lemma_whole_fields_grow(cx, s, node, slot, tys, j, here, level);
        lemma_field_slot_only(cx, s1, node, slot, name);
        if let Some(inner) = found {
            lemma_matched_grows(
                cx,
                s2.sealing(FieldPath::sealed(j as usize, Seq::empty())),
                node,
                inner,
                tys[k - 1].1,
                here,
                FieldPath::of(j as usize, Seq::empty()),
                l1,
            );
        }
        lemma_whole_here(cx, st, s, env, w, node, slot, tys, j, here, level, fact);
        if let Slot::Field { path, .. } = slot {
            lemma_nothing_fetched(cx, st, env, here, path);
        }
        lemma_closed(env, l1, fact, 0);
    }
}

/// A key pattern, walked into a seek and filters, finds the facts it matches.
pub proof fn lemma_key(
    cx: Cx,
    st: St,
    s: St,
    env: Seq<Option<Fact>>,
    w: World,
    node: NodeId,
    ty: PredicateTy,
    here: Address,
    fact: Fact,
    v: Datum,
)
    requires
        cx.ast.wf(),
        cx.ast.has(node),
        grounded(cx, st, env, w, here),
        follows(st, s, here),
        layout::key_is(st.names, fact.key(), ty, v),
        scope::clean(s, model::key(cx, s, node, ty, here, Seek::empty()).0),
    ensures
        ({
            let (after, seek) = model::key(cx, s, node, ty, here, Seek::empty());
            let sense = sense_of(st.bindings, env);
            &&& readable(env, seek, fact)
            &&& finds(env, seek, fact) <==> reading::means_key(w, sense, node, ty, v)
            &&& follows(st, after, here)
        }),
{
    let level = Seek::empty();
    assert(machine::parts_bytes(env, level.parts, 0) == Ok::<Seq<u8>, ApertureError>(
        Seq::empty(),
    ));
    assert(fact.key().take(0) =~= Seq::<u8>::empty());
    assert(finds(env, level, fact));
    assert(aligned(env, level, fact, 0));
    match (ty, cx.ast.kind(node)) {
        (PredicateTy::Record(tys), ExprKind::Record(fields)) => lemma_key_fields(
            cx,
            st,
            s,
            env,
            w,
            node,
            ty,
            tys@.len(),
            here,
            level,
            fact,
            v,
        ),
        (PredicateTy::Record(tys), ExprKind::Wildcard) => lemma_closed(env, level, fact, 0),
        (PredicateTy::Record(tys), kind) => {
            lemma_closed(env, level, fact, 0);
            if kind is Var {
                lemma_lookup_follows(st.bindings, s.bindings, here, kind->Var_0);
            }
            if kind is Var && model::lookup(s.bindings, kind->Var_0) is None {
                let slot = Slot::Key { address: here, ty };
                lemma_captured(st, s, here, kind->Var_0, slot);
            } else {
                lemma_resolve_only(cx, s, node);
                let (s1, found) = model::resolve(cx, s, node);
                if let Some(slot) = found {
                    lemma_whole_fields_grow(cx, s1, node, slot, tys@, tys@.len(), here, level);
                    lemma_thing(cx, st, s, env, w, here, node);
                    if at_here(slot, here) {
                        lemma_whole_here(
                            cx,
                            st,
                            s1,
                            env,
                            w,
                            node,
                            slot,
                            tys@,
                            tys@.len(),
                            here,
                            level,
                            fact,
                        );
                    } else {
                        lemma_whole_fields(
                            cx,
                            st,
                            s1,
                            env,
                            w,
                            node,
                            slot,
                            ty,
                            tys@.len(),
                            here,
                            level,
                            fact,
                            v,
                        );
                    }
                } else {
                    lemma_thing(cx, st, s, env, w, here, node);
                }
            }
        },
        _ => {
            let none = Seq::<usize>::empty();
            let path = FieldPath::of(0, none);
            let held = s.sealing(FieldPath::sealed(0, none));
            lemma_field_grows(cx, held, node, ty, here, path, level);
            assert(held == s);
            FieldPath::lemma_of(0, none);
            layout::lemma_whole(fact.key(), v, path@);
            assert(fact.key().subrange(0, tuple::enc(v).len() as int) =~= tuple::enc(v));
            lemma_field(cx, st, s, env, w, node, ty, here, path, level, fact, v, 0);
        },
    }
}

// ---- what a level offers ----------------------------------------------------

/// Every fact of a store is of the type its predicate declares, and every type has a
/// value.
pub open spec fn well_typed<S: FactStore>(cx: Cx, names: Names, store: S) -> bool {
    &&& forall|i: int, p: PredicateId|
        #![trigger store.facts()[i], cx.schema.predicate(p)]
        0 <= i < store.facts().len() && reading::is_of(store.facts()[i], p) ==> of_predicate(
            cx,
            names,
            store.facts()[i],
            p,
        )
    &&& forall|p: PredicateId|
        (#[trigger] cx.schema.predicate(p)) matches Some(declared) ==> inhabited(
            names,
            declared.key,
        )
}

/// A type has a value.
pub open spec fn inhabited(names: Names, ty: PredicateTy) -> bool {
    exists|d: Datum| #[trigger] tuple::fits(names, d, ty)
}

proof fn lemma_constant_parts(env: Seq<Option<Fact>>, parts: Seq<SeekKeyPart>)
    requires
        forall|i: int| 0 <= i < parts.len() ==> (#[trigger] parts[i]) is Bytes,
    ensures
        machine::parts_bytes(env, parts, parts.len()) == Ok::<Seq<u8>, ApertureError>(
            model::constant_bytes(parts),
        ),
    decreases parts.len(),
{
    if parts.len() > 0 {
        let shorter = parts.drop_last();
        assert forall|i: int| 0 <= i < shorter.len() implies (#[trigger] shorter[i]) is Bytes by {
            assert(shorter[i] == parts[i]);
        }
        lemma_constant_parts(env, shorter);
        assert(parts =~= shorter.push(parts.last()));
        lemma_parts_push(env, shorter, parts.last(), shorter.len());
        assert(parts[parts.len() - 1] is Bytes);
    }
}

/// A finished seek begins with its predicate, then its parts.
proof fn lemma_access_prefix(env: Seq<Option<Fact>>, alt: Alt, seek: Seek)
    requires
        seek.sealed(),
    ensures
        answers::access_prefix(
            env,
            Access { predicate_id: alt.predicate, seek_key: seek.key() },
        ) == (match machine::parts_bytes(env, seek.parts, seek.parts.len()) {
            Ok(p) => Ok::<Seq<u8>, ApertureError>(
                tuple::big_endian(alt.predicate.0 as nat, 4) + p,
            ),
            Err(e) => Err(e),
        }),
{
    if seek.all_constant() {
        lemma_constant_parts(env, seek.parts);
    }
}

/// A type's value stands in some fact.
pub proof fn lemma_phantom(names: Names, p: PredicateId, ty: PredicateTy) -> (found: (Fact, Datum))
    requires
        inhabited(names, ty),
    ensures
        layout::key_is(names, found.0.key(), ty, found.1),
{
    let d = choose|d: Datum| #[trigger] tuple::fits(names, d, ty);
    let key = match d {
        Datum::Record(fields) => tuple::enc_fields(tuple::values_of(fields), d),
        _ => tuple::enc(d),
    };
    let four = tuple::big_endian(p.0 as nat, 4);
    tuple::lemma_big_endian_len(p.0 as nat, 4);
    let fact = Fact { row: four + key, id: crate::plan::FactId::of_bits(0) };
    assert(fact.key() =~= key);
    (fact, d)
}

/// Facts that can all be read are admitted where they pass.
pub proof fn lemma_admitted(env: Seq<Option<Fact>>, filters: Seq<Residual>, left: Seq<Fact>)
    requires
        forall|i: int|
            0 <= i < left.len() ==> machine::passes(
                env,
                filters,
                #[trigger] left[i],
                filters.len(),
            ) is Ok,
    ensures
        answers::admitted(env, filters, left) == (Offer {
            facts: left.filter(
                |f: Fact|
                    machine::passes(env, filters, f, filters.len()) == Ok::<bool, ApertureError>(
                        true,
                    ),
            ),
            error: None,
        }),
    decreases left.len(),
{
    let p = |f: Fact|
        machine::passes(env, filters, f, filters.len()) == Ok::<bool, ApertureError>(true);
    reveal_with_fuel(answers::admitted, 1);
    if left.len() == 0 {
        reveal(Seq::filter);
        assert(left.filter(p) =~= Seq::<Fact>::empty());
    } else {
        let rest = left.skip(1);
        assert forall|i: int| 0 <= i < rest.len() implies machine::passes(
            env,
            filters,
            #[trigger] rest[i],
            filters.len(),
        ) is Ok by {
            assert(rest[i] == left[i + 1]);
        }
        lemma_admitted(env, filters, rest);
        assert(machine::passes(env, filters, left[0], filters.len()) is Ok);
        lemma_filter_front(left, p);
    }
}

/// Filtering from the front.
proof fn lemma_filter_front(s: Seq<Fact>, p: spec_fn(Fact) -> bool)
    requires
        s.len() > 0,
    ensures
        s.filter(p) == (if p(s[0]) {
            seq![s[0]] + s.skip(1).filter(p)
        } else {
            s.skip(1).filter(p)
        }),
{
    Seq::<Fact>::filter_distributes_over_add(seq![s[0]], s.skip(1), p);
    assert(s =~= seq![s[0]] + s.skip(1));
    reveal_with_fuel(Seq::filter, 2);
    assert(seq![s[0]].drop_last() =~= Seq::<Fact>::empty());
    assert(seq![s[0]].filter(p) =~= if p(s[0]) {
        seq![s[0]]
    } else {
        Seq::empty()
    });
}

/// Filtering twice, and filtering by tests that agree.
proof fn lemma_filters(
    s: Seq<Fact>,
    p: spec_fn(Fact) -> bool,
    q: spec_fn(Fact) -> bool,
    r: spec_fn(Fact) -> bool,
)
    requires
        forall|i: int| 0 <= i < s.len() ==> r(#[trigger] s[i]) == (p(s[i]) && q(s[i])),
    ensures
        s.filter(p).filter(q) == s.filter(r),
    decreases s.len(),
{
    reveal(Seq::filter);
    if s.len() > 0 {
        let shorter = s.drop_last();
        assert forall|i: int| 0 <= i < shorter.len() implies r(#[trigger] shorter[i]) == (p(
            shorter[i],
        ) && q(shorter[i])) by {
            assert(shorter[i] == s[i]);
        }
        lemma_filters(shorter, p, q, r);
        assert(r(s[s.len() - 1]) == (p(s[s.len() - 1]) && q(s[s.len() - 1])));
        if p(s.last()) {
            let kept = shorter.filter(p);
            assert(kept.push(s.last()).drop_last() =~= kept);
        }
    }
}

/// A scan, and the filters behind it, come to the facts that pass both.
proof fn lemma_scan_and_filter(
    facts: Seq<Fact>,
    env: Seq<Option<Fact>>,
    prefix: Seq<u8>,
    filters: Seq<Residual>,
    asked: spec_fn(Fact) -> bool,
)
    requires
        forall|i: int|
            0 <= i < facts.len() ==> (bytes::begins_with((#[trigger] facts[i]).row, prefix)
                ==> machine::passes(env, filters, facts[i], filters.len()) is Ok) && asked(
                facts[i],
            ) == (bytes::begins_with(facts[i].row, prefix) && machine::passes(
                env,
                filters,
                facts[i],
                filters.len(),
            ) == Ok::<bool, ApertureError>(true)),
    ensures
        answers::admitted(env, filters, machine::matching(facts, prefix)) == (Offer {
            facts: facts.filter(asked),
            error: None,
        }),
{
    let found = |f: Fact| bytes::begins_with(f.row, prefix);
    let passing = |f: Fact|
        machine::passes(env, filters, f, filters.len()) == Ok::<bool, ApertureError>(true);
    let left = facts.filter(found);
    assert(machine::matching(facts, prefix) == left);
    assert forall|i: int| 0 <= i < left.len() implies machine::passes(
        env,
        filters,
        #[trigger] left[i],
        filters.len(),
    ) is Ok by {
        facts.lemma_filter_pred(found, i);
        facts.lemma_filter_contains_rev(found, left[i]);
        assert(found(left[i]));
        let j = choose|j: int| 0 <= j < facts.len() && facts[j] == left[i];
        assert(bytes::begins_with(facts[j].row, prefix));
    }
    lemma_admitted(env, filters, left);
    lemma_filters(facts, found, passing, asked);
}

/// A fact that a seek and filters find is one the alternative matches.
proof fn lemma_asked(
    cx: Cx,
    st: St,
    s: St,
    env: Seq<Option<Fact>>,
    w: World,
    alt: Alt,
    here: Address,
    fact: Fact,
)
    requires
        cx.ast.wf(),
        cx.ast.has(alt.key),
        cx.schema.predicate(alt.predicate) is Some,
        grounded(cx, st, env, w, here),
        follows(st, s, here),
        reading::is_of(fact, alt.predicate) ==> of_predicate(cx, st.names, fact, alt.predicate),
        inhabited(st.names, cx.schema.predicate(alt.predicate)->0.key),
        ({
            let ty = cx.schema.predicate(alt.predicate)->0.key;
            let (after, seek) = model::key(cx, s, alt.key, ty, here, Seek::empty());
            scope::clean(s, after)
        }),
    ensures
        ({
            let ty = cx.schema.predicate(alt.predicate)->0.key;
            let seek = model::key(cx, s, alt.key, ty, here, Seek::empty()).1;
            let filters = seek.residuals;
            &&& machine::parts_bytes(env, seek.parts, seek.parts.len()) matches Ok(p) && {
                let prefix = tuple::big_endian(alt.predicate.0 as nat, 4) + p;
                &&& bytes::begins_with(fact.row, prefix) ==> machine::passes(
                    env,
                    filters,
                    fact,
                    filters.len(),
                ) is Ok
                &&& reading::matches(w, sense_of(st.bindings, env), alt, fact) == (
                bytes::begins_with(fact.row, prefix) && machine::passes(
                    env,
                    filters,
                    fact,
                    filters.len(),
                ) == Ok::<bool, ApertureError>(true))
            }
        }),
{
    let ty = cx.schema.predicate(alt.predicate)->0.key;
    let seek = model::key(cx, s, alt.key, ty, here, Seek::empty()).1;
    let four = tuple::big_endian(alt.predicate.0 as nat, 4);
    tuple::lemma_big_endian_len(alt.predicate.0 as nat, 4);
    let (phantom, d) = lemma_phantom(st.names, alt.predicate, ty);
    lemma_key(cx, st, s, env, w, alt.key, ty, here, phantom, d);
    let p = machine::parts_bytes(env, seek.parts, seek.parts.len())->Ok_0;
    lemma_begins_concat(fact.row, four, p);
    if reading::is_of(fact, alt.predicate) {
        let v = choose|d: Datum| #[trigger] layout::key_is(st.names, fact.key(), ty, d);
        lemma_key(cx, st, s, env, w, alt.key, ty, here, fact, v);
        if reading::matches(w, sense_of(st.bindings, env), alt, fact) {
            let u = choose|d: Datum|
                #[trigger] layout::key_is(st.names, fact.key(), ty, d) && reading::means_key(
                    w,
                    sense_of(st.bindings, env),
                    alt.key,
                    ty,
                    d,
                );
            lemma_key(cx, st, s, env, w, alt.key, ty, here, fact, u);
        }
    }
}

/// What a level reads of an alternative is exactly the facts its pattern matches, in the
/// order of the store, and nothing that is read fails: the prefix a scan is narrowed to
/// and the filters behind it together ask for the pattern, no more and no less.
pub proof fn law_a_level_offers_what_its_pattern_matches<S: FactStore>(
    cx: Cx,
    st: St,
    s: St,
    store: S,
    env: Seq<Option<Fact>>,
    w: World,
    alt: Alt,
    here: Address,
)
    requires
        cx.ast.wf(),
        cx.ast.has(alt.key),
        cx.schema.predicate(alt.predicate) is Some,
        grounded(cx, st, env, w, here),
        follows(st, s, here),
        w.facts == store.facts(),
        well_typed(cx, st.names, store),
        ({
            let ty = cx.schema.predicate(alt.predicate)->0.key;
            let (after, seek) = model::key(cx, s, alt.key, ty, here, Seek::empty());
            scope::clean(s, after) && seek.sealed()
        }),
    ensures
        ({
            let ty = cx.schema.predicate(alt.predicate)->0.key;
            let seek = model::key(cx, s, alt.key, ty, here, Seek::empty()).1;
            answers::offered(store, env, emitting::source_of(alt, seek)) == (Offer {
                facts: reading::matched(w, sense_of(st.bindings, env), alt),
                error: None,
            })
        }),
{
    let ty = cx.schema.predicate(alt.predicate)->0.key;
    let seek = model::key(cx, s, alt.key, ty, here, Seek::empty()).1;
    let facts = store.facts();
    let four = tuple::big_endian(alt.predicate.0 as nat, 4);
    let (phantom, d) = lemma_phantom(st.names, alt.predicate, ty);
    lemma_key(cx, st, s, env, w, alt.key, ty, here, phantom, d);
    let p = machine::parts_bytes(env, seek.parts, seek.parts.len())->Ok_0;
    lemma_access_prefix(env, alt, seek);
    let filters = seek.residuals;
    let asked = |fact: Fact| reading::matches(w, sense_of(st.bindings, env), alt, fact);
    assert forall|i: int| 0 <= i < facts.len() implies (bytes::begins_with(
        (#[trigger] facts[i]).row,
        four + p,
    ) ==> machine::passes(env, filters, facts[i], filters.len()) is Ok) && asked(facts[i]) == (
    bytes::begins_with(facts[i].row, four + p) && machine::passes(
        env,
        filters,
        facts[i],
        filters.len(),
    ) == Ok::<bool, ApertureError>(true)) by {
        if reading::is_of(facts[i], alt.predicate) {
            assert(cx.schema.predicate(alt.predicate) is Some);
            assert(of_predicate(cx, st.names, store.facts()[i], alt.predicate));
        }
        lemma_asked(cx, st, s, env, w, alt, here, facts[i]);
    }
    lemma_scan_and_filter(facts, env, four + p, filters, asked);
    reveal(answers::offered);
}

} // verus!
