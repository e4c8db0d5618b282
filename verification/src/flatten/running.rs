//! What a flattened query answers: exactly the ways its statements can be read that are
//! answers, in the order of the loops.
use vstd::prelude::*;

use super::emitting;
use super::emitting::Built;
use super::filtering;
use super::matching;
use super::model;
use super::scope;
use super::model::{Alt, Compare, Cx, Gen, Seek, Slot, St, Stmt};
use super::taking;
use crate::answers;
use crate::answers::{Answers, Offer};
use crate::boxed;
use crate::error::ApertureError;
use crate::iter::Address;
use crate::layout;
use crate::machine;
use crate::plan::{Fact, FactId, FactStore, FieldPath, Residual, Route};
use crate::program;
use crate::program::{Level, Source, Step, Test};
use crate::reading;
use crate::reading::typing;
use crate::reading::typing::Kinds;
use crate::reading::{Found, Place, Sense, Thing, World};
use crate::schema::{Names, PredicateId, PredicateTy, Symbol};
use crate::syntax::{ExprKind, FieldRef, NodeId};
use crate::tuple;
use crate::tuple::Datum;

verus! {

// ---- what each register is a row of -----------------------------------------

/// The predicates some sources range over.
pub open spec fn predicates(sources: Seq<Source>) -> Seq<PredicateId> {
    sources.map_values(|source: Source| source.predicate())
}

/// The predicates each register's rows are facts of, by its level's sources.
pub open spec fn kinds_of(steps: Seq<Step>) -> Seq<Seq<PredicateId>>
    decreases steps.len(),
{
    if steps.len() == 0 {
        Seq::empty()
    } else {
        let before = kinds_of(steps.drop_last());
        match steps.last() {
            Step::Level(level) => before.push(predicates(level.sources@)),
            _ => before,
        }
    }
}

/// A fact is of one of some predicates.
pub open spec fn of_any(cx: Cx, names: Names, fact: Fact, kinds: Seq<PredicateId>) -> bool {
    exists|i: int|
        0 <= i < kinds.len() && matching::of_predicate(cx, names, fact, #[trigger] kinds[i])
}

/// A register holds a row of its kind.
pub open spec fn filled_at(
    cx: Cx,
    names: Names,
    env: Seq<Option<Fact>>,
    kinds: Seq<Seq<PredicateId>>,
    address: Address,
) -> bool {
    machine::held(env, address) matches Ok(fact) && of_any(
        cx,
        names,
        fact,
        kinds[address.0 as int],
    )
}

/// The register a place is in.
pub open spec fn address_of(slot: Slot) -> Option<Address> {
    match slot {
        Slot::Row { address, .. } => Some(address),
        Slot::Key { address, .. } => Some(address),
        Slot::Field { address, .. } => Some(address),
        Slot::Value { address, .. } => Some(address),
        Slot::Const(_) => None,
    }
}

/// A place holds a value of its type, whatever row of its kind its register holds.
pub open spec fn typed_slot(
    cx: Cx,
    names: Names,
    kinds: Seq<Seq<PredicateId>>,
    slot: Slot,
) -> bool {
    &&& address_of(slot) matches Some(a) ==> a.0 < kinds.len() && (slot is Value || (slot is Row
        && slot->Row_predicate is None) || kinds[a.0 as int].len() > 0)
    &&& forall|env: Seq<Option<Fact>>|
        (address_of(slot) matches Some(a) ==> filled_at(cx, names, env, kinds, a)) ==> (
        #[trigger] matching::sound_slot(cx, names, env, slot))
}

/// A reference that is followed is one, and the register it is followed into holds facts
/// of the predicate it names.
pub open spec fn typed_fetch(
    cx: Cx,
    names: Names,
    kinds: Seq<Seq<PredicateId>>,
    entry: (Address, FieldPath, Address),
) -> bool {
    &&& entry.2.0 < kinds.len()
    &&& kinds[entry.2.0 as int].len() == 1
    &&& typed_slot(
        cx,
        names,
        kinds,
        Slot::Field {
            address: entry.0,
            path: entry.1,
            ty: PredicateTy::Fact(kinds[entry.2.0 as int][0]),
        },
    )
}

/// Every place a flattening knows of is of its type.
pub open spec fn told(cx: Cx, st: St, kinds: Seq<Seq<PredicateId>>) -> bool {
    &&& forall|i: int|
        0 <= i < st.bindings.len() ==> typed_slot(
            cx,
            st.names,
            kinds,
            (#[trigger] st.bindings[i]).1,
        )
    &&& forall|i: int|
        0 <= i < st.compares.len() ==> typed_slot(
            cx,
            st.names,
            kinds,
            (#[trigger] st.compares[i]).left,
        ) && typed_slot(cx, st.names, kinds, st.compares[i].right)
    &&& forall|i: int|
        0 <= i < st.fetched.len() ==> typed_fetch(
            cx,
            st.names,
            kinds,
            #[trigger] st.fetched[i],
        )
    &&& forall|i: int|
        0 <= i < st.constraints.len() ==> cx.ast.kind(
            (#[trigger] st.constraints[i]).1,
        ) is Prefix
}

/// Every declared type has a value.
pub open spec fn peopled(cx: Cx, names: Names) -> bool {
    forall|p: PredicateId|
        (#[trigger] cx.schema.predicate(p)) matches Some(declared) ==> matching::inhabited(
            names,
            declared.key,
        )
}

/// A fact is one of the store: scanned, or behind its id.
pub open spec fn stored(w: World, fact: Fact) -> bool {
    w.facts.contains(fact) || ((w.keys)(fact.id) matches Some(key) && fact.row
        == tuple::big_endian(fact.id.predicate_of(), 4) + key)
}

/// What is behind an id is a fact of the predicate the id names, and every reference a
/// stored fact holds leads to one.
pub open spec fn closed(w: World) -> bool {
    &&& forall|id: FactId|
        #![trigger (w.keys)(id)]
        (w.keys)(id) matches Some(key) ==> matching::of_predicate(
            w.cx,
            w.names,
            Fact { row: tuple::big_endian(id.predicate_of(), 4) + key, id },
            PredicateId(id.predicate_of() as u32),
        )
    &&& forall|fact: Fact, path: Route, id: FactId|
        stored(w, fact) && #[trigger] layout::holds_at(fact.key(), path, Datum::FactRef(id))
            ==> (w.keys)(id) is Some
}

/// The facts a world has are a store's.
pub open spec fn reads<S: FactStore>(w: World, store: S) -> bool {
    &&& w.facts == store.facts()
    &&& forall|id: FactId|
        #![trigger store.entity(id)]
        (w.keys)(id) == (match store.entity(id) {
            Some((key, _)) => Some(key),
            None => None,
        }) && (w.values)(id) == (match store.entity(id) {
            Some((_, value)) => Some(value),
            None => None,
        })
}

/// What every proof here stands on.
pub open spec fn ground(w: World) -> bool {
    &&& w.cx.ast.wf()
    &&& peopled(w.cx, w.names)
    &&& closed(w)
}

/// Registers that hold what the steps so far fill them with: a row of its kind each, the
/// fact each reference that was followed names, and nothing beyond.
pub open spec fn fits(
    cx: Cx,
    w: World,
    st: St,
    kinds: Seq<Seq<PredicateId>>,
    env: Seq<Option<Fact>>,
) -> bool {
    &&& kinds.len() <= env.len() <= usize::MAX
    &&& forall|i: int|
        0 <= i < kinds.len() ==> ((#[trigger] env[i]) matches Some(fact) && of_any(
            cx,
            st.names,
            fact,
            kinds[i],
        ) && stored(w, fact))
    &&& forall|i: int| kinds.len() <= i < env.len() ==> (#[trigger] env[i]) is None
    &&& forall|i: int|
        0 <= i < st.fetched.len() ==> matching::sound_fetch(
            cx,
            st.names,
            env,
            #[trigger] st.fetched[i],
        ) && matching::true_fetch(w, env, st.fetched[i])
}

/// What a state has found, the registers holding `env`.
pub open spec fn found_in(st: St, env: Seq<Option<Fact>>) -> Found {
    Found {
        sense: matching::sense_of(st.bindings, env),
        pairs: st.compares.map_values(
            |one: Compare|
                (matching::thing_in(env, one.left), matching::thing_in(env, one.right)),
        ),
    }
}

// ---- places stay where they are ---------------------------------------------

pub proof fn lemma_typed_more(
    cx: Cx,
    names: Names,
    kinds: Seq<Seq<PredicateId>>,
    more: Seq<Seq<PredicateId>>,
    slot: Slot,
)
    requires
        typed_slot(cx, names, kinds, slot),
        kinds.len() <= more.len(),
        more.take(kinds.len() as int) == kinds,
    ensures
        typed_slot(cx, names, more, slot),
{
    if let Some(a) = address_of(slot) {
        assert(more.take(kinds.len() as int)[a.0 as int] == more[a.0 as int]);
        assert forall|env: Seq<Option<Fact>>|
            filled_at(cx, names, env, more, a) implies (#[trigger] matching::sound_slot(
            cx,
            names,
            env,
            slot,
        )) by {
            assert(filled_at(cx, names, env, kinds, a));
        }
    }
}

pub proof fn lemma_told_more(
    cx: Cx,
    st: St,
    kinds: Seq<Seq<PredicateId>>,
    more: Seq<Seq<PredicateId>>,
)
    requires
        told(cx, st, kinds),
        kinds.len() <= more.len(),
        more.take(kinds.len() as int) == kinds,
    ensures
        told(cx, st, more),
{
    let names = st.names;
    assert forall|i: int| 0 <= i < st.bindings.len() implies typed_slot(
        cx,
        names,
        more,
        (#[trigger] st.bindings[i]).1,
    ) by {
        lemma_typed_more(cx, names, kinds, more, st.bindings[i].1);
    }
    assert forall|i: int| 0 <= i < st.compares.len() implies typed_slot(
        cx,
        names,
        more,
        (#[trigger] st.compares[i]).left,
    ) && typed_slot(cx, names, more, st.compares[i].right) by {
        lemma_typed_more(cx, names, kinds, more, st.compares[i].left);
        lemma_typed_more(cx, names, kinds, more, st.compares[i].right);
    }
    assert forall|i: int| 0 <= i < st.fetched.len() implies typed_fetch(
        cx,
        names,
        more,
        #[trigger] st.fetched[i],
    ) by {
        let entry = st.fetched[i];
        assert(typed_fetch(cx, names, kinds, entry));
        assert(more.take(kinds.len() as int)[entry.2.0 as int] == more[entry.2.0 as int]);
        lemma_typed_more(
            cx,
            names,
            kinds,
            more,
            Slot::Field {
                address: entry.0,
                path: entry.1,
                ty: PredicateTy::Fact(kinds[entry.2.0 as int][0]),
            },
        );
    }
}

pub proof fn lemma_lookup_typed(
    cx: Cx,
    names: Names,
    kinds: Seq<Seq<PredicateId>>,
    bindings: Seq<(Symbol, Slot)>,
    symbol: Symbol,
)
    requires
        forall|i: int|
            0 <= i < bindings.len() ==> typed_slot(
                cx,
                names,
                kinds,
                (#[trigger] bindings[i]).1,
            ),
    ensures
        model::lookup(bindings, symbol) matches Some(slot) ==> typed_slot(
            cx,
            names,
            kinds,
            slot,
        ),
    decreases bindings.len(),
{
    if bindings.len() > 0 {
        assert(typed_slot(cx, names, kinds, bindings[bindings.len() - 1].1));
        let shorter = bindings.drop_last();
        assert forall|i: int| 0 <= i < shorter.len() implies typed_slot(
            cx,
            names,
            kinds,
            (#[trigger] shorter[i]).1,
        ) by {
            assert(shorter[i] == bindings[i]);
        }
        lemma_lookup_typed(cx, names, kinds, shorter, symbol);
    }
}

pub proof fn lemma_fetched_typed(
    cx: Cx,
    names: Names,
    kinds: Seq<Seq<PredicateId>>,
    fetched: Seq<(Address, FieldPath, Address)>,
    address: Address,
    path: FieldPath,
)
    requires
        forall|i: int|
            0 <= i < fetched.len() ==> typed_fetch(cx, names, kinds, #[trigger] fetched[i]),
    ensures
        model::fetched_register(fetched, address, path) matches Some(register) ==> typed_fetch(
            cx,
            names,
            kinds,
            (address, path, register),
        ),
    decreases fetched.len(),
{
    if fetched.len() > 0 {
        assert(typed_fetch(cx, names, kinds, fetched[fetched.len() - 1]));
        let shorter = fetched.drop_last();
        assert forall|i: int| 0 <= i < shorter.len() implies typed_fetch(
            cx,
            names,
            kinds,
            #[trigger] shorter[i],
        ) by {
            assert(shorter[i] == fetched[i]);
        }
        lemma_fetched_typed(cx, names, kinds, shorter, address, path);
    }
}

/// Some register could hold a row of its kind.
pub proof fn lemma_some_row(
    cx: Cx,
    names: Names,
    kinds: Seq<Seq<PredicateId>>,
    address: Address,
) -> (env: Seq<Option<Fact>>)
    requires
        peopled(cx, names),
        kinds[address.0 as int].len() > 0,
    ensures
        filled_at(cx, names, env, kinds, address),
{
    let p = kinds[address.0 as int][0];
    let fact = match cx.schema.predicate(p) {
        Some(declared) => matching::lemma_phantom(names, p, declared.key).0,
        None => Fact { row: Seq::empty(), id: FactId::of_bits(0) },
    };
    assert(matching::of_predicate(cx, names, fact, kinds[address.0 as int][0]));
    let env = Seq::new(address.0 as nat + 1, |i: int| Some(fact));
    assert(machine::held(env, address) == Ok::<Fact, ApertureError>(fact));
    env
}

/// A reference, as the row it is followed into.
pub proof fn lemma_followed_typed(
    cx: Cx,
    st: St,
    kinds: Seq<Seq<PredicateId>>,
    slot: Slot,
)
    requires
        peopled(cx, st.names),
        told(cx, st, kinds),
        typed_slot(cx, st.names, kinds, slot),
        slot is Field,
        slot->Field_ty is Fact,
    ensures
        model::fetched_register(st.fetched, slot->Field_address, slot->Field_path) matches Some(
            register,
        ) ==> typed_slot(
            cx,
            st.names,
            kinds,
            Slot::Row { address: register, predicate: Some(slot->Field_ty->Fact_0) },
        ),
{
    let (address, path) = (slot->Field_address, slot->Field_path);
    lemma_fetched_typed(cx, st.names, kinds, st.fetched, address, path);
    if let Some(register) = model::fetched_register(st.fetched, address, path) {
        let p = kinds[register.0 as int][0];
        let other = Slot::Field { address, path, ty: PredicateTy::Fact(p) };
        let env = lemma_some_row(cx, st.names, kinds, address);
        assert(matching::sound_slot(cx, st.names, env, slot));
        assert(matching::sound_slot(cx, st.names, env, other));
        let fact = machine::held(env, address)->Ok_0;
        let a = choose|d: Datum|
            #[trigger] layout::holds_at(fact.key(), path@, d) && tuple::fits(
                st.names,
                d,
                slot->Field_ty,
            );
        let b = choose|d: Datum|
            #[trigger] layout::holds_at(fact.key(), path@, d) && tuple::fits(
                st.names,
                d,
                PredicateTy::Fact(p),
            );
        tuple::lemma_same_fact(a->FactRef_0, b->FactRef_0);
        assert(slot->Field_ty->Fact_0 == p);
        let row = Slot::Row { address: register, predicate: Some(p) };
        assert forall|e: Seq<Option<Fact>>|
            filled_at(cx, st.names, e, kinds, register) implies (#[trigger] matching::sound_slot(
            cx,
            st.names,
            e,
            row,
        )) by {}
    }
}

pub proof fn lemma_dereference_typed(
    cx: Cx,
    st: St,
    s: St,
    kinds: Seq<Seq<PredicateId>>,
    node: NodeId,
    slot: Slot,
)
    requires
        peopled(cx, st.names),
        told(cx, st, kinds),
        s.fetched == st.fetched,
        typed_slot(cx, st.names, kinds, slot),
    ensures
        model::dereference(cx, s, node, slot).1 matches Some(place) ==> typed_slot(
            cx,
            st.names,
            kinds,
            place,
        ),
{
    if let Slot::Field { address, path, ty: PredicateTy::Fact(predicate) } = slot {
        lemma_followed_typed(cx, st, kinds, slot);
    }
}

pub proof fn lemma_row_field_typed(
    cx: Cx,
    names: Names,
    kinds: Seq<Seq<PredicateId>>,
    address: Address,
    predicate: Option<PredicateId>,
    name: Symbol,
)
    requires
        typed_slot(cx, names, kinds, Slot::Row { address, predicate }),
        model::place_sealed(model::row_field(cx, address, predicate, name)),
    ensures
        model::row_field(cx, address, predicate, name) matches Some(place) ==> typed_slot(
            cx,
            names,
            kinds,
            place,
        ),
{
    if let Some(place) = model::row_field(cx, address, predicate, name) {
        assert forall|env: Seq<Option<Fact>>|
            filled_at(cx, names, env, kinds, address) implies (#[trigger] matching::sound_slot(
            cx,
            names,
            env,
            place,
        )) by {
            assert(matching::sound_slot(cx, names, env, Slot::Row { address, predicate }));
            matching::lemma_row_field_sound(cx, names, env, address, predicate, name);
        }
    }
}

#[verifier::rlimit(30)]
pub proof fn lemma_piece_typed(
    cx: Cx,
    st: St,
    s: St,
    kinds: Seq<Seq<PredicateId>>,
    node: NodeId,
    slot: Slot,
    name: Symbol,
)
    requires
        peopled(cx, st.names),
        told(cx, st, kinds),
        s.fetched == st.fetched,
        typed_slot(cx, st.names, kinds, slot),
        model::field_slot(cx, s, node, slot, name).0.sealed,
    ensures
        model::field_slot(cx, s, node, slot, name).1 matches Some(place) ==> typed_slot(
            cx,
            st.names,
            kinds,
            place,
        ),
{
    let names = st.names;
    match slot {
        Slot::Row { address, predicate } => lemma_row_field_typed(
            cx,
            names,
            kinds,
            address,
            predicate,
            name,
        ),
        Slot::Key { address, ty } => if model::field_of(ty, name) is Some {
            let place = model::field_slot(cx, s, node, slot, name).1->0;
            assert forall|env: Seq<Option<Fact>>|
                filled_at(cx, names, env, kinds, address) implies (
            #[trigger] matching::sound_slot(cx, names, env, place)) by {
                assert(matching::sound_slot(cx, names, env, slot));
                matching::lemma_key_field(cx, names, env, address, ty, name);
            }
        },
        Slot::Field { address, path, ty } => match ty {
            PredicateTy::Record(_) => if model::field_of(ty, name) is Some {
                let place = model::field_slot(cx, s, node, slot, name).1->0;
                assert forall|env: Seq<Option<Fact>>|
                    filled_at(cx, names, env, kinds, address) implies (
                #[trigger] matching::sound_slot(cx, names, env, place)) by {
                    assert(matching::sound_slot(cx, names, env, slot));
                    matching::lemma_inner_field(cx, names, env, slot, name);
                }
            },
            PredicateTy::Fact(p) => {
                lemma_dereference_typed(cx, st, s, kinds, node, slot);
                if let Some(Slot::Row { address: register, predicate }) = model::dereference(
                    cx,
                    s,
                    node,
                    slot,
                ).1 {
                    lemma_row_field_typed(cx, names, kinds, register, predicate, name);
                }
            },
            _ => {},
        },
        Slot::Const(folded) => {
            assert(matching::sound_slot(cx, names, Seq::empty(), slot));
            if let ExprKind::Record(fields) = cx.ast.kind(folded) {
                matching::lemma_piece_constant(cx, folded, fields@, name);
            }
        },
        Slot::Value { .. } => {},
    }
}

/// What an expression resolves to is of its type.
pub proof fn lemma_resolve_typed(
    cx: Cx,
    st: St,
    kinds: Seq<Seq<PredicateId>>,
    node: NodeId,
)
    requires
        peopled(cx, st.names),
        told(cx, st, kinds),
        model::resolve(cx, st, node).0.sealed,
    ensures
        model::resolve(cx, st, node).1 matches Some(slot) ==> typed_slot(
            cx,
            st.names,
            kinds,
            slot,
        ),
    decreases node.0,
{
    if !cx.ast.constant(node) {
        match cx.ast.kind(node) {
            ExprKind::Var(symbol) => lemma_lookup_typed(
                cx,
                st.names,
                kinds,
                st.bindings,
                symbol,
            ),
            ExprKind::Fact(_, _) => {
                if let Some(row) = model::hoisted_row(st.hoisted, node) {
                    lemma_lookup_typed(cx, st.names, kinds, st.bindings, row);
                }
            },
            ExprKind::Access(field, base) => if base.0 < node.0 {
                matching::lemma_resolve_only(cx, st, base);
                let (s1, found) = model::resolve(cx, st, base);
                if let Some(slot) = found {
                    matching::lemma_dereference_only(cx, s1, node, slot);
                    let (s2, place) = model::dereference(cx, s1, node, slot);
                    if let (FieldRef::Key(name), Some(inner)) = (field, place) {
                        matching::lemma_field_slot_only(cx, s2, node, inner, name);
                    }
                    lemma_resolve_typed(cx, st, kinds, base);
                    lemma_dereference_typed(cx, st, s1, kinds, node, slot);
                    if let (FieldRef::Key(name), Some(inner)) = (field, place) {
                        lemma_piece_typed(cx, st, s2, kinds, node, inner, name);
                    }
                }
            },
            _ => {},
        }
    }
}

// ---- what a state has found -------------------------------------------------

pub proof fn lemma_filled(
    cx: Cx,
    w: World,
    st: St,
    kinds: Seq<Seq<PredicateId>>,
    env: Seq<Option<Fact>>,
    address: Address,
)
    requires
        fits(cx, w, st, kinds, env),
        address.0 < kinds.len(),
    ensures
        filled_at(cx, st.names, env, kinds, address),
        machine::held(env, address) == Ok::<Fact, ApertureError>(
            matching::fact_in(env, address),
        ),
{
    assert(env[address.0 as int] is Some);
}

/// Places of the right type, in registers that hold rows of the right kind.
pub proof fn lemma_sound(
    cx: Cx,
    w: World,
    st: St,
    kinds: Seq<Seq<PredicateId>>,
    env: Seq<Option<Fact>>,
)
    requires
        told(cx, st, kinds),
        fits(cx, w, st, kinds, env),
    ensures
        matching::sound(cx, st, env),
        matching::true_fetches(w, st, env),
{
    assert forall|i: int| 0 <= i < st.bindings.len() implies matching::sound_slot(
        cx,
        st.names,
        env,
        (#[trigger] st.bindings[i]).1,
    ) by {
        lemma_slot_sound(cx, w, st, kinds, env, st.bindings[i].1);
    }
}

pub proof fn lemma_slot_sound(
    cx: Cx,
    w: World,
    st: St,
    kinds: Seq<Seq<PredicateId>>,
    env: Seq<Option<Fact>>,
    slot: Slot,
)
    requires
        fits(cx, w, st, kinds, env),
        typed_slot(cx, st.names, kinds, slot),
    ensures
        matching::sound_slot(cx, st.names, env, slot),
{
    if let Some(a) = address_of(slot) {
        lemma_filled(cx, w, st, kinds, env, a);
    }
}

/// What an expression resolves to is what it stands for.
pub proof fn lemma_resolved(
    cx: Cx,
    w: World,
    st: St,
    kinds: Seq<Seq<PredicateId>>,
    env: Seq<Option<Fact>>,
    node: NodeId,
)
    requires
        peopled(cx, st.names),
        told(cx, st, kinds),
        fits(cx, w, st, kinds, env),
        matching::linked(w, cx, st),
        scope::clean(st, model::resolve(cx, st, node).0),
    ensures
        reading::thing_of(w, matching::sense_of(st.bindings, env), node) == matching::maybe_thing(
            env,
            model::resolve(cx, st, node).1,
        ),
{
    let here = Address(env.len() as usize);
    lemma_sound(cx, w, st, kinds, env);
    assert(st.bindings.take(st.bindings.len() as int) =~= st.bindings);
    matching::lemma_thing(cx, st, st, env, w, here, node);
    lemma_resolve_typed(cx, st, kinds, node);
}

/// Only what is bound and compared, and what is reported, changed.
pub open spec fn only_names(a: St, b: St) -> bool {
    &&& b.hoisted == a.hoisted
    &&& b.fetched == a.fetched
    &&& b.constraints == a.constraints
    &&& b.constrained == a.constrained
    &&& b.names == a.names
    &&& scope::further(a, b)
}

/// Naming a place changes only what is named.
pub proof fn lemma_bind_only(cx: Cx, st: St, pattern: NodeId, slot: Slot)
    ensures
        only_names(st, model::bind_pattern(cx, st, pattern, slot)),
    decreases pattern.0, 1nat, 0nat,
{
    if let ExprKind::Record(fields) = cx.ast.kind(pattern) {
        lemma_bind_pieces_only(cx, st, pattern, slot, fields@, fields@.len());
    }
}

pub proof fn lemma_bind_pieces_only(
    cx: Cx,
    st: St,
    pattern: NodeId,
    slot: Slot,
    fields: Seq<(Symbol, NodeId)>,
    k: nat,
)
    ensures
        only_names(st, model::bind_pieces(cx, st, pattern, slot, fields, k)),
    decreases pattern.0, 0nat, k,
{
    if k > 0 {
        let j = (k - 1) as nat;
        lemma_bind_pieces_only(cx, st, pattern, slot, fields, j);
        let s1 = model::bind_pieces(cx, st, pattern, slot, fields, j);
        let (name, piece) = fields[k - 1];
        matching::lemma_field_slot_only(cx, s1, piece, slot, name);
        let (s2, field) = model::field_slot(cx, s1, piece, slot, name);
        if let Some(place) = field {
            if piece.0 < pattern.0 {
                lemma_bind_only(cx, s2, piece, place);
            }
        }
    }
}

/// Naming a place keeps every place of its type.
pub proof fn lemma_bind_typed(
    cx: Cx,
    st: St,
    kinds: Seq<Seq<PredicateId>>,
    pattern: NodeId,
    slot: Slot,
)
    requires
        peopled(cx, st.names),
        told(cx, st, kinds),
        typed_slot(cx, st.names, kinds, slot),
        model::bind_pattern(cx, st, pattern, slot).sealed,
    ensures
        told(cx, model::bind_pattern(cx, st, pattern, slot), kinds),
    decreases pattern.0, 1nat, 0nat,
{
    let after = model::bind_pattern(cx, st, pattern, slot);
    match cx.ast.kind(pattern) {
        ExprKind::Var(symbol) => {
            lemma_lookup_typed(cx, st.names, kinds, st.bindings, symbol);
            match model::lookup(st.bindings, symbol) {
                Some(bound) => {
                    assert forall|i: int| 0 <= i < after.compares.len() implies typed_slot(
                        cx,
                        st.names,
                        kinds,
                        (#[trigger] after.compares[i]).left,
                    ) && typed_slot(cx, st.names, kinds, after.compares[i].right) by {
                        if i < st.compares.len() {
                            assert(after.compares[i] == st.compares[i]);
                        }
                    }
                },
                None => {
                    assert forall|i: int| 0 <= i < after.bindings.len() implies typed_slot(
                        cx,
                        st.names,
                        kinds,
                        (#[trigger] after.bindings[i]).1,
                    ) by {
                        if i < st.bindings.len() {
                            assert(after.bindings[i] == st.bindings[i]);
                        }
                    }
                },
            }
        },
        ExprKind::Record(fields) => lemma_bind_pieces_typed(
            cx,
            st,
            kinds,
            pattern,
            slot,
            fields@,
            fields@.len(),
        ),
        _ => {},
    }
}

pub proof fn lemma_bind_pieces_typed(
    cx: Cx,
    st: St,
    kinds: Seq<Seq<PredicateId>>,
    pattern: NodeId,
    slot: Slot,
    fields: Seq<(Symbol, NodeId)>,
    k: nat,
)
    requires
        peopled(cx, st.names),
        told(cx, st, kinds),
        typed_slot(cx, st.names, kinds, slot),
        model::bind_pieces(cx, st, pattern, slot, fields, k).sealed,
    ensures
        told(cx, model::bind_pieces(cx, st, pattern, slot, fields, k), kinds),
    decreases pattern.0, 0nat, k,
{
    if k > 0 {
        let j = (k - 1) as nat;
        let s1 = model::bind_pieces(cx, st, pattern, slot, fields, j);
        let (name, piece) = fields[k - 1];
        let (s2, field) = model::field_slot(cx, s1, piece, slot, name);
        lemma_bind_pieces_only(cx, st, pattern, slot, fields, j);
        matching::lemma_field_slot_only(cx, s1, piece, slot, name);
        if let Some(place) = field {
            if piece.0 < pattern.0 {
                lemma_bind_only(cx, s2, piece, place);
            }
        }
        lemma_bind_pieces_typed(cx, st, kinds, pattern, slot, fields, j);
        lemma_piece_typed(cx, s1, s1, kinds, piece, slot, name);
        if let Some(place) = field {
            if piece.0 < pattern.0 {
                lemma_bind_typed(cx, s2, kinds, piece, place);
            }
        }
    }
}

/// A variable bound last.
pub proof fn lemma_named_last(
    bindings: Seq<(Symbol, Slot)>,
    env: Seq<Option<Fact>>,
    symbol: Symbol,
    slot: Slot,
)
    ensures
        matching::sense_of(bindings.push((symbol, slot)), env) == reading::naming(
            matching::sense_of(bindings, env),
            symbol,
            matching::thing_in(env, slot),
        ),
{
    let more = bindings.push((symbol, slot));
    assert(more.drop_last() =~= bindings);
    assert(matching::sense_of(more, env) =~= reading::naming(
        matching::sense_of(bindings, env),
        symbol,
        matching::thing_in(env, slot),
    ));
}

/// Naming a place is giving it that name.
pub proof fn lemma_bound(
    cx: Cx,
    w: World,
    st: St,
    kinds: Seq<Seq<PredicateId>>,
    env: Seq<Option<Fact>>,
    pattern: NodeId,
    slot: Slot,
)
    requires
        peopled(cx, st.names),
        told(cx, st, kinds),
        fits(cx, w, st, kinds, env),
        matching::linked(w, cx, st),
        typed_slot(cx, st.names, kinds, slot),
        scope::clean(st, model::bind_pattern(cx, st, pattern, slot)),
    ensures
        found_in(model::bind_pattern(cx, st, pattern, slot), env) == reading::with_name(
            w,
            found_in(st, env),
            pattern,
            matching::thing_in(env, slot),
        ),
    decreases pattern.0, 1nat, 0nat,
{
    let after = model::bind_pattern(cx, st, pattern, slot);
    match cx.ast.kind(pattern) {
        ExprKind::Var(symbol) => match model::lookup(st.bindings, symbol) {
            Some(bound) => {
                assert(found_in(after, env).pairs =~= found_in(st, env).pairs.push(
                    (matching::thing_in(env, bound), matching::thing_in(env, slot)),
                ));
            },
            None => lemma_named_last(st.bindings, env, symbol, slot),
        },
        ExprKind::Record(fields) => lemma_bound_pieces(
            cx,
            w,
            st,
            kinds,
            env,
            pattern,
            slot,
            fields@,
            fields@.len(),
        ),
        _ => {},
    }
}

pub proof fn lemma_bound_pieces(
    cx: Cx,
    w: World,
    st: St,
    kinds: Seq<Seq<PredicateId>>,
    env: Seq<Option<Fact>>,
    pattern: NodeId,
    slot: Slot,
    fields: Seq<(Symbol, NodeId)>,
    k: nat,
)
    requires
        peopled(cx, st.names),
        told(cx, st, kinds),
        fits(cx, w, st, kinds, env),
        matching::linked(w, cx, st),
        typed_slot(cx, st.names, kinds, slot),
        scope::clean(st, model::bind_pieces(cx, st, pattern, slot, fields, k)),
    ensures
        found_in(model::bind_pieces(cx, st, pattern, slot, fields, k), env)
            == reading::with_pieces(
            w,
            found_in(st, env),
            pattern,
            matching::thing_in(env, slot),
            fields,
            k,
        ),
    decreases pattern.0, 0nat, k,
{
    if k > 0 {
        let j = (k - 1) as nat;
        let s1 = model::bind_pieces(cx, st, pattern, slot, fields, j);
        let (name, piece) = fields[k - 1];
        let (s2, field) = model::field_slot(cx, s1, piece, slot, name);
        lemma_bind_pieces_only(cx, st, pattern, slot, fields, j);
        matching::lemma_field_slot_only(cx, s1, piece, slot, name);
        if let Some(place) = field {
            if piece.0 < pattern.0 {
                lemma_bind_only(cx, s2, piece, place);
            }
        }
        lemma_bind_pieces_typed(cx, st, kinds, pattern, slot, fields, j);
        lemma_piece_typed(cx, s1, s1, kinds, piece, slot, name);
        lemma_bound_pieces(cx, w, st, kinds, env, pattern, slot, fields, j);
        lemma_sound(cx, w, s1, kinds, env);
        lemma_slot_sound(cx, w, s1, kinds, env, slot);
        matching::lemma_piece_thing(cx, s1, s1, env, w, piece, slot, name);
        if let Some(place) = field {
            if piece.0 < pattern.0 {
                lemma_bound(cx, w, s2, kinds, env, piece, place);
                assert(found_in(s2, env) == found_in(s1, env));
            }
        }
    }
}

/// What was found stays found while registers are only filled.
pub proof fn lemma_found_stays(
    cx: Cx,
    st: St,
    kinds: Seq<Seq<PredicateId>>,
    a: Seq<Option<Fact>>,
    b: Seq<Option<Fact>>,
)
    requires
        told(cx, st, kinds),
        forall|i: int| 0 <= i < kinds.len() ==> a[i] == #[trigger] b[i],
    ensures
        found_in(st, a) == found_in(st, b),
{
    assert forall|slot: Slot| typed_slot(cx, st.names, kinds, slot) implies
        #[trigger] matching::thing_in(a, slot) == matching::thing_in(b, slot) by {
        if let Some(at) = address_of(slot) {
            assert(a[at.0 as int] == b[at.0 as int]);
        }
    }
    let (f, g) = (found_in(st, a), found_in(st, b));
    assert forall|symbol: Symbol| #[trigger] (f.sense)(symbol) == (g.sense)(symbol) by {
        lemma_lookup_typed(cx, st.names, kinds, st.bindings, symbol);
        if let Some(slot) = model::lookup(st.bindings, symbol) {
            assert(matching::thing_in(a, slot) == matching::thing_in(b, slot));
        }
    }
    assert(f.sense =~= g.sense);
    assert forall|i: int| 0 <= i < st.compares.len() implies f.pairs[i] == g.pairs[i] by {
        let one = st.compares[i];
        assert(matching::thing_in(a, one.left) == matching::thing_in(b, one.left));
        assert(matching::thing_in(a, one.right) == matching::thing_in(b, one.right));
    }
    assert(f.pairs =~= g.pairs);
}

// ---- a body and its beginnings ----------------------------------------------

/// One body begins another.
pub open spec fn grown(a: Built, b: Built) -> bool {
    &&& a.steps.len() <= b.steps.len()
    &&& b.steps.take(a.steps.len() as int) == a.steps
    &&& a.levels <= b.levels
}

/// The levels are counted, and each fills the register of its position.
pub open spec fn counted(b: Built) -> bool {
    &&& b.levels == kinds_of(b.steps).len()
    &&& emitting::registers_are_positions(b.steps)
}

pub proof fn lemma_grown(a: Built, b: Built, c: Built)
    requires
        grown(a, b),
        grown(b, c),
    ensures
        grown(a, c),
{
    assert(c.steps.take(a.steps.len() as int) =~= c.steps.take(b.steps.len() as int).take(
        a.steps.len() as int,
    ));
}

pub proof fn lemma_kinds_grown(a: Seq<Step>, b: Seq<Step>)
    requires
        a.len() <= b.len(),
        b.take(a.len() as int) == a,
    ensures
        kinds_of(a).len() <= kinds_of(b).len(),
        kinds_of(b).take(kinds_of(a).len() as int) == kinds_of(a),
    decreases b.len(),
{
    if a.len() == b.len() {
        assert(b.take(a.len() as int) =~= b);
        assert(kinds_of(a).take(kinds_of(a).len() as int) =~= kinds_of(a));
    } else {
        let c = b.drop_last();
        assert(c.take(a.len() as int) =~= b.take(a.len() as int));
        lemma_kinds_grown(a, c);
        assert(kinds_of(b).take(kinds_of(a).len() as int) =~= kinds_of(c).take(
            kinds_of(a).len() as int,
        ));
    }
}

/// One level more.
pub proof fn lemma_with_level(b: Built, level: Level)
    requires
        counted(b),
        level.binds@ == seq![b.next()],
    ensures
        grown(b, b.with_level(level)),
        counted(b.with_level(level)),
        kinds_of(b.with_level(level).steps) == kinds_of(b.steps).push(predicates(level.sources@)),
{
    let more = b.with_level(level);
    assert(more.steps.drop_last() =~= b.steps);
    assert(more.steps.take(b.steps.len() as int) =~= b.steps);
    filtering::lemma_kinds(b.steps);
    assert forall|i: int| 0 <= i < more.steps.len() implies ((#[trigger] more.steps[i]) matches
        Step::Level(one) ==> one.binds@ == seq![
        Address(program::level_count(more.steps.take(i)) as usize),
    ]) by {
        if i < b.steps.len() {
            assert(more.steps[i] == b.steps[i]);
            assert(more.steps.take(i) =~= b.steps.take(i));
        }
    }
}

/// One test more.
pub proof fn lemma_with_test(b: Built, test: Test)
    requires
        counted(b),
    ensures
        grown(b, b.with_test(test)),
        counted(b.with_test(test)),
        kinds_of(b.with_test(test).steps) == kinds_of(b.steps),
{
    let more = b.with_test(test);
    assert(more.steps.drop_last() =~= b.steps);
    assert(more.steps.take(b.steps.len() as int) =~= b.steps);
    assert forall|i: int| 0 <= i < more.steps.len() implies ((#[trigger] more.steps[i]) matches
        Step::Level(one) ==> one.binds@ == seq![
        Address(program::level_count(more.steps.take(i)) as usize),
    ]) by {
        if i < b.steps.len() {
            assert(more.steps[i] == b.steps[i]);
            assert(more.steps.take(i) =~= b.steps.take(i));
        }
    }
}

/// The fact a level over one fact binds.
pub proof fn lemma_one_row<S: FactStore>(
    store: S,
    body: Seq<Step>,
    env: Seq<Option<Fact>>,
    k: nat,
    source: Source,
    here: Address,
    fact: Fact,
)
    requires
        k < body.len(),
        answers::offered(store, env, source) == (Offer { facts: seq![fact], error: None }),
        here.0 < env.len(),
    ensures
        answers::over_sources(store, body, env, k, seq![source], seq![here]) == answers::answers(
            store,
            body,
            machine::bound(env, seq![here], fact),
            k + 1,
        ),
{
    let offer = Offer { facts: seq![fact], error: None };
    answers::lemma_source(store, body, env, k, seq![source], seq![here]);
    answers::lemma_source(store, body, env, k, seq![source].skip(1), seq![here]);
    answers::lemma_row(store, body, env, k, seq![here], offer);
    answers::lemma_row(store, body, env, k, seq![here], answers::past(offer));
    assert(seq![source].skip(1).len() == 0);
    assert(answers::past(offer).facts.len() == 0);
    reveal_with_fuel(machine::stray, 2);
    let rest = answers::answers(store, body, machine::bound(env, seq![here], fact), k + 1);
    lemma_chain_nothing(rest);
}

pub proof fn lemma_chain_nothing(a: Answers)
    ensures
        a.chain(Answers::ending(None)) == a,
        a.chain(Answers::nothing()) == a,
{
    reveal(Answers::chain);
    assert(a.rows + Seq::<Seq<Option<Fact>>>::empty() =~= a.rows);
    assert(a.chain(Answers::ending(None)) =~= a);
    assert(a.chain(Answers::nothing()) =~= a);
}

// ---- following references ---------------------------------------------------

/// Only references were followed, and levels added for them.
pub open spec fn only_fetches(a: St, b: St) -> bool {
    &&& b.bindings == a.bindings
    &&& b.compares == a.compares
    &&& b.hoisted == a.hoisted
    &&& b.constraints == a.constraints
    &&& b.constrained == a.constrained
    &&& b.names == a.names
    &&& scope::further(a, b)
}

/// What following references keeps.
pub open spec fn follows_on(w: World, st: St, built: Built, s: St, b: Built) -> bool {
    &&& only_fetches(st, s)
    &&& told(w.cx, s, kinds_of(b.steps))
    &&& grown(built, b)
    &&& counted(b)
}

/// What following references starts from.
pub open spec fn begun(w: World, st: St, built: Built) -> bool {
    &&& ground(w)
    &&& matching::linked(w, w.cx, st)
    &&& told(w.cx, st, kinds_of(built.steps))
    &&& counted(built)
}

pub proof fn lemma_fetch_level_typed(
    w: World,
    st: St,
    built: Built,
    address: Address,
    path: FieldPath,
    predicate: PredicateId,
)
    requires
        begun(w, st, built),
        built.levels < usize::MAX,
        emitting::fetch_level(st, built, address, path, predicate).0.sealed,
        typed_slot(
            w.cx,
            st.names,
            kinds_of(built.steps),
            Slot::Field { address, path, ty: PredicateTy::Fact(predicate) },
        ),
    ensures
        ({
            let (s1, b1) = emitting::fetch_level(st, built, address, path, predicate);
            follows_on(w, st, built, s1, b1)
        }),
{
    let (s1, b1) = emitting::fetch_level(st, built, address, path, predicate);
    let kinds = kinds_of(built.steps);
    if model::fetched_register(st.fetched, address, path) is Some {
        assert(built.steps.take(built.steps.len() as int) =~= built.steps);
    } else {
        let here = built.next();
        let level = Level::fetching(address, path, predicate, here);
        lemma_with_level(built, level);
        let more = kinds_of(b1.steps);
        assert(predicates(level.sources@) =~= seq![predicate]);
        assert(more.take(kinds.len() as int) =~= kinds);
        lemma_told_more(w.cx, st, kinds, more);
        let slot = Slot::Field { address, path, ty: PredicateTy::Fact(predicate) };
        lemma_typed_more(w.cx, st.names, kinds, more, slot);
        assert forall|i: int| 0 <= i < s1.fetched.len() implies typed_fetch(
            w.cx,
            s1.names,
            more,
            #[trigger] s1.fetched[i],
        ) by {
            if i < st.fetched.len() {
                assert(s1.fetched[i] == st.fetched[i]);
            } else {
                assert(more[here.0 as int] == seq![predicate]);
            }
        }
    }
}

/// Following a reference fills a register with the fact it names, and is done.
#[verifier::rlimit(30)]
pub proof fn lemma_fetch_level<S: FactStore>(
    w: World,
    store: S,
    body: Seq<Step>,
    st: St,
    built: Built,
    env: Seq<Option<Fact>>,
    address: Address,
    path: FieldPath,
    predicate: PredicateId,
) -> (filled: Seq<Option<Fact>>)
    requires
        reads(w, store),
        begun(w, st, built),
        fits(w.cx, w, st, kinds_of(built.steps), env),
        typed_slot(
            w.cx,
            st.names,
            kinds_of(built.steps),
            Slot::Field { address, path, ty: PredicateTy::Fact(predicate) },
        ),
        ({
            let (s1, b1) = emitting::fetch_level(st, built, address, path, predicate);
            &&& s1.sealed
            &&& b1.levels <= env.len()
            &&& b1.steps.len() <= body.len()
            &&& body.take(b1.steps.len() as int) == b1.steps
        }),
    ensures
        ({
            let (s1, b1) = emitting::fetch_level(st, built, address, path, predicate);
            &&& fits(w.cx, w, s1, kinds_of(b1.steps), filled)
            &&& reaches(store, body, built, env, b1, filled)
        }),
{
    let (s1, b1) = emitting::fetch_level(st, built, address, path, predicate);
    let kinds = kinds_of(built.steps);
    if model::fetched_register(st.fetched, address, path) is Some {
        env
    } else {
        let here = built.next();
        let level = Level::fetching(address, path, predicate, here);
        lemma_with_level(built, level);
        assert(predicates(level.sources@) =~= seq![predicate]);
        let slot = Slot::Field { address, path, ty: PredicateTy::Fact(predicate) };
        lemma_slot_sound(w.cx, w, st, kinds, env, slot);
        lemma_filled(w.cx, w, st, kinds, env, address);
        let from = matching::fact_in(env, address);
        let d = choose|d: Datum|
            #[trigger] layout::holds_at(from.key(), path@, d) && tuple::fits(
                st.names,
                d,
                PredicateTy::Fact(predicate),
            );
        let id = d->FactRef_0;
        assert(d == Datum::FactRef(id));
        assert(env[address.0 as int] is Some);
        assert(stored(w, from));
        assert((w.keys)(id) is Some);
        matching::lemma_named(id, predicate);
        assert(tuple::path_bytes(from.key(), path@) == Ok::<Seq<u8>, ApertureError>(
            tuple::enc_fact(id),
        ));
        let key = (w.keys)(id)->0;
        assert(store.entity(id) is Some);
        let fact = Fact { row: tuple::big_endian(predicate.0 as nat, 4) + key, id };
        let none = Seq::<Residual>::empty();
        assert(boxed::boxed(none)@ == none);
        let source = Source::Fetch {
            reference: address,
            path,
            predicate,
            residuals: boxed::boxed(none),
        };
        assert(level.sources@ == seq![source]);
        assert(level.binds@ == seq![here]);
        assert(answers::offered(store, env, source) == (Offer { facts: seq![fact], error: None }))
            by {
            reveal(answers::offered);
            reveal_with_fuel(answers::admitted, 2);
            assert(seq![fact].skip(1) =~= Seq::<Fact>::empty());
            assert(seq![fact] + Seq::<Fact>::empty() =~= seq![fact]);
        }
        let k = built.steps.len();
        assert(body[k as int] == body.take(b1.steps.len() as int)[k as int]);
        lemma_one_row(store, body, env, k, source, here, fact);
        answers::lemma_step(store, body, env, k);
        let filled = machine::bound(env, seq![here], fact);
        assert(PredicateId(id.predicate_of() as u32) == predicate);
        assert(matching::of_predicate(w.cx, st.names, fact, seq![predicate][0]));
        lemma_bound_fits(w, st, s1, kinds, env, seq![predicate], here, fact);
        assert forall|i: int| 0 <= i < s1.fetched.len() implies matching::sound_fetch(
            w.cx,
            s1.names,
            filled,
            #[trigger] s1.fetched[i],
        ) && matching::true_fetch(w, filled, s1.fetched[i]) by {
            if i < st.fetched.len() {
                assert(s1.fetched[i] == st.fetched[i]);
            } else {
                assert(filled[address.0 as int] == env[address.0 as int]);
                assert(filled[here.0 as int] == Some(fact));
            }
        }
        filled
    }
}

/// From the end of one body to the end of a longer one there is one way, which fills
/// registers and changes none.
pub open spec fn reaches<S: FactStore>(
    store: S,
    body: Seq<Step>,
    a: Built,
    env: Seq<Option<Fact>>,
    b: Built,
    filled: Seq<Option<Fact>>,
) -> bool {
    &&& filled.len() == env.len()
    &&& forall|i: int| 0 <= i < kinds_of(a.steps).len() ==> env[i] == #[trigger] filled[i]
    &&& answers::answers(store, body, env, a.steps.len()) == answers::answers(
        store,
        body,
        filled,
        b.steps.len(),
    )
}

/// One register more, filled with a fact of its kind.
#[verifier::rlimit(30)]
pub proof fn lemma_bound_fits(
    w: World,
    st: St,
    s1: St,
    kinds: Seq<Seq<PredicateId>>,
    env: Seq<Option<Fact>>,
    kind: Seq<PredicateId>,
    here: Address,
    fact: Fact,
)
    requires
        fits(w.cx, w, st, kinds, env),
        here.0 == kinds.len(),
        kinds.len() < env.len(),
        of_any(w.cx, st.names, fact, kind),
        stored(w, fact),
        s1.names == st.names,
    ensures
        ({
            let filled = machine::bound(env, seq![here], fact);
            &&& filled.len() == env.len()
            &&& forall|i: int| 0 <= i < kinds.len() ==> env[i] == #[trigger] filled[i]
            &&& filled[here.0 as int] == Some(fact)
            &&& forall|i: int|
                0 <= i < st.fetched.len() ==> matching::sound_fetch(
                    w.cx,
                    s1.names,
                    filled,
                    #[trigger] st.fetched[i],
                ) && matching::true_fetch(w, filled, st.fetched[i])
            &&& s1.fetched == st.fetched ==> fits(w.cx, w, s1, kinds.push(kind), filled)
            &&& (forall|i: int|
                0 <= i < s1.fetched.len() ==> matching::sound_fetch(
                    w.cx,
                    s1.names,
                    filled,
                    #[trigger] s1.fetched[i],
                ) && matching::true_fetch(w, filled, s1.fetched[i])) ==> fits(
                w.cx,
                w,
                s1,
                kinds.push(kind),
                filled,
            )
        }),
{
    let filled = machine::bound(env, seq![here], fact);
    let more = kinds.push(kind);
    assert forall|i: int| 0 <= i < env.len() implies (#[trigger] filled[i]) == (if i == here.0 {
        Some(fact)
    } else {
        env[i]
    }) by {
        assert(seq![here].contains(Address(i as usize)) <==> i == here.0) by {
            assert(seq![here][0] == here);
        }
    }
    assert forall|i: int| 0 <= i < st.fetched.len() implies matching::sound_fetch(
        w.cx,
        s1.names,
        filled,
        #[trigger] st.fetched[i],
    ) && matching::true_fetch(w, filled, st.fetched[i]) by {
        let entry = st.fetched[i];
        assert(matching::sound_fetch(w.cx, st.names, env, entry));
        assert(entry.0.0 < kinds.len()) by {
            if entry.0.0 >= kinds.len() {
                assert(machine::held(env, entry.0) is Err);
            }
        }
        assert(entry.2.0 < kinds.len()) by {
            if entry.2.0 >= kinds.len() {
                assert(machine::held(env, entry.2) is Err);
            }
        }
        assert(filled[entry.0.0 as int] == env[entry.0.0 as int]);
        assert(filled[entry.2.0 as int] == env[entry.2.0 as int]);
    }
    assert forall|i: int| 0 <= i < more.len() implies ((#[trigger] filled[i]) matches Some(f)
        && of_any(w.cx, s1.names, f, more[i]) && stored(w, f)) by {
        if i < kinds.len() {
            assert(env[i] is Some);
        }
    }
}

/// Following references in a node's bases and pieces keeps every place of its type.
pub proof fn lemma_fetch_typed(w: World, st: St, built: Built, node: NodeId)
    requires
        begun(w, st, built),
        emitting::fetch_within(w.cx, st, built, node).1.levels <= usize::MAX,
        emitting::fetch_within(w.cx, st, built, node).0.sealed,
    ensures
        ({
            let (s1, b1) = emitting::fetch_within(w.cx, st, built, node);
            follows_on(w, st, built, s1, b1)
        }),
    decreases node.0, 1nat, 0nat,
{
    assert(built.steps.take(built.steps.len() as int) =~= built.steps);
    match w.cx.ast.kind(node) {
        ExprKind::Record(fields) => lemma_fetch_fields_typed(
            w,
            st,
            built,
            node,
            fields@,
            fields@.len(),
        ),
        ExprKind::Access(_, base) => lemma_fetch_base_typed(w, st, built, node, base),
        ExprKind::Select(_, base) => lemma_fetch_base_typed(w, st, built, node, base),
        _ => {},
    }
}

pub proof fn lemma_fetch_base_typed(
    w: World,
    st: St,
    built: Built,
    node: NodeId,
    base: NodeId,
)
    requires
        begun(w, st, built),
        emitting::fetch_base(w.cx, st, built, node, base).1.levels <= usize::MAX,
        emitting::fetch_base(w.cx, st, built, node, base).0.sealed,
    ensures
        ({
            let (s1, b1) = emitting::fetch_base(w.cx, st, built, node, base);
            follows_on(w, st, built, s1, b1)
        }),
    decreases node.0, 0nat, 0nat,
{
    assert(built.steps.take(built.steps.len() as int) =~= built.steps);
    if base.0 < node.0 {
        let (s1, b1) = emitting::fetch_within(w.cx, st, built, base);
        matching::lemma_resolve_only(w.cx, s1, base);
        lemma_fetch_typed(w, st, built, base);
        lemma_resolve_typed(w.cx, s1, kinds_of(b1.steps), base);
        let (s2, found) = model::resolve(w.cx, s1, base);
        if let Some(Slot::Field { address, path, ty: PredicateTy::Fact(predicate) }) = found {
            let (s3, b3) = emitting::fetch_level(s2, b1, address, path, predicate);
            if model::fetched_register(s2.fetched, address, path) is None {
                assert(b3.levels == b1.levels + 1);
                lemma_fetch_level_typed(w, s2, b1, address, path, predicate);
                lemma_grown(built, b1, b3);
            }
        }
    }
}

pub proof fn lemma_fetch_fields_typed(
    w: World,
    st: St,
    built: Built,
    node: NodeId,
    fields: Seq<(Symbol, NodeId)>,
    k: nat,
)
    requires
        begun(w, st, built),
        emitting::fetch_fields(w.cx, st, built, node, fields, k).1.levels <= usize::MAX,
        emitting::fetch_fields(w.cx, st, built, node, fields, k).0.sealed,
    ensures
        ({
            let (s1, b1) = emitting::fetch_fields(w.cx, st, built, node, fields, k);
            follows_on(w, st, built, s1, b1)
        }),
    decreases node.0, 0nat, k,
{
    assert(built.steps.take(built.steps.len() as int) =~= built.steps);
    if k > 0 {
        let j = (k - 1) as nat;
        let (s1, b1) = emitting::fetch_fields(w.cx, st, built, node, fields, j);
        if fields[k - 1].1.0 < node.0 {
            lemma_fetch_more(w.cx, s1, b1, fields[k - 1].1);
            lemma_fetch_fields_typed(w, st, built, node, fields, j);
            lemma_fetch_typed(w, s1, b1, fields[k - 1].1);
            let (s2, b2) = emitting::fetch_within(w.cx, s1, b1, fields[k - 1].1);
            lemma_grown(built, b1, b2);
        } else {
            lemma_fetch_fields_typed(w, st, built, node, fields, j);
        }
    }
}

/// Levels and reports are only added.
pub proof fn lemma_fetch_more(cx: Cx, st: St, built: Built, node: NodeId)
    ensures
        built.levels <= emitting::fetch_within(cx, st, built, node).1.levels,
        scope::further(st, emitting::fetch_within(cx, st, built, node).0),
    decreases node.0, 1nat, 0nat,
{
    match cx.ast.kind(node) {
        ExprKind::Record(fields) => lemma_fetch_more_fields(
            cx,
            st,
            built,
            node,
            fields@,
            fields@.len(),
        ),
        ExprKind::Access(_, base) => if base.0 < node.0 {
            lemma_fetch_more(cx, st, built, base);
            matching::lemma_resolve_only(
                cx,
                emitting::fetch_within(cx, st, built, base).0,
                base,
            );
        },
        ExprKind::Select(_, base) => if base.0 < node.0 {
            lemma_fetch_more(cx, st, built, base);
            matching::lemma_resolve_only(
                cx,
                emitting::fetch_within(cx, st, built, base).0,
                base,
            );
        },
        _ => {},
    }
}

pub proof fn lemma_fetch_more_fields(
    cx: Cx,
    st: St,
    built: Built,
    node: NodeId,
    fields: Seq<(Symbol, NodeId)>,
    k: nat,
)
    ensures
        built.levels <= emitting::fetch_fields(cx, st, built, node, fields, k).1.levels,
        scope::further(st, emitting::fetch_fields(
            cx,
            st,
            built,
            node,
            fields,
            k,
        ).0),
    decreases node.0, 0nat, k,
{
    if k > 0 {
        lemma_fetch_more_fields(cx, st, built, node, fields, (k - 1) as nat);
        let (s1, b1) = emitting::fetch_fields(cx, st, built, node, fields, (k - 1) as nat);
        if fields[k - 1].1.0 < node.0 {
            lemma_fetch_more(cx, s1, b1, fields[k - 1].1);
        }
    }
}

pub proof fn lemma_fetch_more_alts(cx: Cx, st: St, built: Built, alts: Seq<Alt>, k: nat)
    ensures
        built.levels <= emitting::fetch_alts(cx, st, built, alts, k).1.levels,
        scope::further(st, emitting::fetch_alts(cx, st, built, alts, k).0),
    decreases k,
{
    if k > 0 {
        lemma_fetch_more_alts(cx, st, built, alts, (k - 1) as nat);
        let (s1, b1) = emitting::fetch_alts(cx, st, built, alts, (k - 1) as nat);
        lemma_fetch_more(cx, s1, b1, alts[k - 1].key);
    }
}

/// A body that is run from the end of one part of it to the end of another.
pub open spec fn part_of(b: Built, body: Seq<Step>, env: Seq<Option<Fact>>) -> bool {
    &&& b.levels <= env.len()
    &&& b.steps.len() <= body.len()
    &&& body.take(b.steps.len() as int) == b.steps
}

pub proof fn lemma_part(a: Built, b: Built, body: Seq<Step>, env: Seq<Option<Fact>>)
    requires
        grown(a, b),
        part_of(b, body, env),
    ensures
        part_of(a, body, env),
{
    assert(body.take(a.steps.len() as int) =~= body.take(b.steps.len() as int).take(
        a.steps.len() as int,
    ));
}

pub proof fn lemma_reaches<S: FactStore>(
    store: S,
    body: Seq<Step>,
    a: Built,
    x: Seq<Option<Fact>>,
    b: Built,
    y: Seq<Option<Fact>>,
    c: Built,
    z: Seq<Option<Fact>>,
)
    requires
        grown(a, b),
        reaches(store, body, a, x, b, y),
        reaches(store, body, b, y, c, z),
    ensures
        reaches(store, body, a, x, c, z),
{
    lemma_kinds_grown(a.steps, b.steps);
    assert forall|i: int| 0 <= i < kinds_of(a.steps).len() implies x[i] == #[trigger] z[i] by {
        assert(x[i] == y[i]);
        assert(y[i] == z[i]);
    }
}

/// The references a node reads through are followed one after another, each to the one
/// fact it names.
pub proof fn lemma_fetched<S: FactStore>(
    w: World,
    store: S,
    body: Seq<Step>,
    st: St,
    built: Built,
    env: Seq<Option<Fact>>,
    node: NodeId,
) -> (filled: Seq<Option<Fact>>)
    requires
        reads(w, store),
        begun(w, st, built),
        fits(w.cx, w, st, kinds_of(built.steps), env),
        part_of(emitting::fetch_within(w.cx, st, built, node).1, body, env),
        emitting::fetch_within(w.cx, st, built, node).0.sealed,
    ensures
        ({
            let (s1, b1) = emitting::fetch_within(w.cx, st, built, node);
            &&& fits(w.cx, w, s1, kinds_of(b1.steps), filled)
            &&& reaches(store, body, built, env, b1, filled)
        }),
    decreases node.0, 1nat, 0nat,
{
    match w.cx.ast.kind(node) {
        ExprKind::Record(fields) => lemma_fetched_fields(
            w,
            store,
            body,
            st,
            built,
            env,
            node,
            fields@,
            fields@.len(),
        ),
        ExprKind::Access(_, base) => lemma_fetched_base(
            w,
            store,
            body,
            st,
            built,
            env,
            node,
            base,
        ),
        ExprKind::Select(_, base) => lemma_fetched_base(
            w,
            store,
            body,
            st,
            built,
            env,
            node,
            base,
        ),
        _ => env,
    }
}

pub proof fn lemma_fetched_base<S: FactStore>(
    w: World,
    store: S,
    body: Seq<Step>,
    st: St,
    built: Built,
    env: Seq<Option<Fact>>,
    node: NodeId,
    base: NodeId,
) -> (filled: Seq<Option<Fact>>)
    requires
        reads(w, store),
        begun(w, st, built),
        fits(w.cx, w, st, kinds_of(built.steps), env),
        part_of(emitting::fetch_base(w.cx, st, built, node, base).1, body, env),
        emitting::fetch_base(w.cx, st, built, node, base).0.sealed,
    ensures
        ({
            let (s1, b1) = emitting::fetch_base(w.cx, st, built, node, base);
            &&& fits(w.cx, w, s1, kinds_of(b1.steps), filled)
            &&& reaches(store, body, built, env, b1, filled)
        }),
    decreases node.0, 0nat, 0nat,
{
    if base.0 < node.0 {
        let (s1, b1) = emitting::fetch_within(w.cx, st, built, base);
        let (s2, found) = model::resolve(w.cx, s1, base);
        matching::lemma_resolve_only(w.cx, s1, base);
        if let Some(Slot::Field { address, path, ty: PredicateTy::Fact(predicate) }) = found {
            let (s3, b3) = emitting::fetch_level(s2, b1, address, path, predicate);
            assert(b1.levels <= b3.levels);
            lemma_fetch_typed(w, st, built, base);
            lemma_resolve_typed(w.cx, s1, kinds_of(b1.steps), base);
            if model::fetched_register(s2.fetched, address, path) is None {
                lemma_fetch_level_typed(w, s2, b1, address, path, predicate);
                lemma_part(b1, b3, body, env);
            }
            let half = lemma_fetched(w, store, body, st, built, env, base);
            assert(fits(w.cx, w, s2, kinds_of(b1.steps), half));
            let filled = lemma_fetch_level(
                w,
                store,
                body,
                s2,
                b1,
                half,
                address,
                path,
                predicate,
            );
            lemma_reaches(store, body, built, env, b1, half, b3, filled);
            filled
        } else {
            lemma_fetched(w, store, body, st, built, env, base)
        }
    } else {
        env
    }
}

pub proof fn lemma_fetched_fields<S: FactStore>(
    w: World,
    store: S,
    body: Seq<Step>,
    st: St,
    built: Built,
    env: Seq<Option<Fact>>,
    node: NodeId,
    fields: Seq<(Symbol, NodeId)>,
    k: nat,
) -> (filled: Seq<Option<Fact>>)
    requires
        reads(w, store),
        begun(w, st, built),
        fits(w.cx, w, st, kinds_of(built.steps), env),
        part_of(emitting::fetch_fields(w.cx, st, built, node, fields, k).1, body, env),
        emitting::fetch_fields(w.cx, st, built, node, fields, k).0.sealed,
    ensures
        ({
            let (s1, b1) = emitting::fetch_fields(w.cx, st, built, node, fields, k);
            &&& fits(w.cx, w, s1, kinds_of(b1.steps), filled)
            &&& reaches(store, body, built, env, b1, filled)
        }),
    decreases node.0, 0nat, k,
{
    if k == 0 {
        env
    } else {
        let j = (k - 1) as nat;
        let (s1, b1) = emitting::fetch_fields(w.cx, st, built, node, fields, j);
        let next = fields[k - 1].1;
        if next.0 < node.0 {
            let (s2, b2) = emitting::fetch_within(w.cx, s1, b1, next);
            lemma_fetch_more(w.cx, s1, b1, next);
            lemma_fetch_fields_typed(w, st, built, node, fields, j);
            lemma_fetch_typed(w, s1, b1, next);
            lemma_part(b1, b2, body, env);
            let half = lemma_fetched_fields(
                w,
                store,
                body,
                st,
                built,
                env,
                node,
                fields,
                j,
            );
            let filled = lemma_fetched(w, store, body, s1, b1, half, next);
            lemma_reaches(store, body, built, env, b1, half, b2, filled);
            filled
        } else {
            lemma_fetched_fields(w, store, body, st, built, env, node, fields, j)
        }
    }
}

pub proof fn lemma_fetch_alts_typed(
    w: World,
    st: St,
    built: Built,
    alts: Seq<Alt>,
    k: nat,
)
    requires
        begun(w, st, built),
        emitting::fetch_alts(w.cx, st, built, alts, k).1.levels <= usize::MAX,
        emitting::fetch_alts(w.cx, st, built, alts, k).0.sealed,
    ensures
        ({
            let (s1, b1) = emitting::fetch_alts(w.cx, st, built, alts, k);
            follows_on(w, st, built, s1, b1)
        }),
    decreases k,
{
    assert(built.steps.take(built.steps.len() as int) =~= built.steps);
    if k > 0 {
        let j = (k - 1) as nat;
        let (s1, b1) = emitting::fetch_alts(w.cx, st, built, alts, j);
        let (s2, b2) = emitting::fetch_within(w.cx, s1, b1, alts[k - 1].key);
        lemma_fetch_more(w.cx, s1, b1, alts[k - 1].key);
        lemma_fetch_alts_typed(w, st, built, alts, j);
        lemma_fetch_typed(w, s1, b1, alts[k - 1].key);
        lemma_grown(built, b1, b2);
    }
}

pub proof fn lemma_fetched_alts<S: FactStore>(
    w: World,
    store: S,
    body: Seq<Step>,
    st: St,
    built: Built,
    env: Seq<Option<Fact>>,
    alts: Seq<Alt>,
    k: nat,
) -> (filled: Seq<Option<Fact>>)
    requires
        reads(w, store),
        begun(w, st, built),
        fits(w.cx, w, st, kinds_of(built.steps), env),
        part_of(emitting::fetch_alts(w.cx, st, built, alts, k).1, body, env),
        emitting::fetch_alts(w.cx, st, built, alts, k).0.sealed,
    ensures
        ({
            let (s1, b1) = emitting::fetch_alts(w.cx, st, built, alts, k);
            &&& fits(w.cx, w, s1, kinds_of(b1.steps), filled)
            &&& reaches(store, body, built, env, b1, filled)
        }),
    decreases k,
{
    if k == 0 {
        env
    } else {
        let j = (k - 1) as nat;
        let (s1, b1) = emitting::fetch_alts(w.cx, st, built, alts, j);
        let next = alts[k - 1].key;
        let (s2, b2) = emitting::fetch_within(w.cx, s1, b1, next);
        lemma_fetch_more(w.cx, s1, b1, next);
        lemma_fetch_alts_typed(w, st, built, alts, j);
        lemma_fetch_typed(w, s1, b1, next);
        lemma_part(b1, b2, body, env);
        let half = lemma_fetched_alts(w, store, body, st, built, env, alts, j);
        let filled = lemma_fetched(w, store, body, s1, b1, half, next);
        lemma_reaches(store, body, built, env, b1, half, b2, filled);
        filled
    }
}

// ---- statements that range over facts ---------------------------------------

/// Two places are one place of a row.
pub open spec fn same_spot(a: Place, b: Place) -> bool {
    match (a, b) {
        (Place::Key(_), Place::Key(_)) => true,
        (Place::Field(p, _), Place::Field(q, _)) => p == q,
        _ => false,
    }
}

/// A variable is taken, and at a place.
pub open spec fn taken_at(taken: Seq<(Symbol, Place)>, one: (Symbol, Place)) -> bool {
    exists|m: int|
        0 <= m < taken.len() && (#[trigger] taken[m]).0 == one.0 && same_spot(taken[m].1, one.1)
}

/// The alternatives of a scan bind alike: each takes at its place what all of them take.
pub open spec fn even(w: World, sense: Sense, alts: Seq<Alt>, k: nat) -> bool {
    forall|i: int, j: int|
        #![trigger alts[i], reading::shared(w, sense, alts, k)[j]]
        0 <= i < k && 0 <= j < reading::shared(w, sense, alts, k).len() ==> taken_at(
            reading::takes_key(w, sense, alts[i].key, reading::key_of(w, alts[i])),
            reading::shared(w, sense, alts, k)[j],
        )
}

/// The alternatives of a scan meet every variable at its type, and where the row is named,
/// all are of one predicate.
pub open spec fn fitted(w: World, types: Kinds, alts: Seq<Alt>, row: Option<Symbol>) -> bool {
    forall|i: int|
        0 <= i < alts.len() ==> typing::fitting(types, typing::occurring(w, #[trigger] alts[i]))
            && (row matches Some(symbol) ==> types(symbol).ty == PredicateTy::Fact(
            alts[i].predicate,
        ))
}

/// Every alternative's key is in the tree.
pub open spec fn present(w: World, alts: Seq<Alt>) -> bool {
    forall|i: int| 0 <= i < alts.len() ==> w.cx.ast.has((#[trigger] alts[i]).key)
}

/// Only which constraints were applied changed.
pub open spec fn only_marked(a: St, b: St) -> bool {
    &&& b.bindings == a.bindings
    &&& b.compares == a.compares
    &&& b.hoisted == a.hoisted
    &&& b.fetched == a.fetched
    &&& b.constraints == a.constraints
    &&& b.names == a.names
    &&& scope::clean(a, b)
    &&& a.constrained.len() <= b.constrained.len()
    &&& b.constrained.take(a.constrained.len() as int) == a.constrained
}

/// Those of variables that were taken.
pub open spec fn only_constrained(a: St, b: St, taken: Seq<(Symbol, Place)>) -> bool {
    &&& only_marked(a, b)
    &&& forall|i: int|
        a.constrained.len() <= i < b.constrained.len() ==> taking::takes_field(
            taken,
            #[trigger] b.constrained[i],
        ) && model::patterns_of(a.constraints, b.constrained[i]).len() > 0
}

/// A variable is taken at a field by one of the first `k` alternatives.
pub open spec fn some_takes(
    w: World,
    sense: Sense,
    alts: Seq<Alt>,
    k: nat,
    symbol: Symbol,
) -> bool {
    exists|i: int|
        0 <= i < k && taking::takes_field(
            reading::takes_key(w, sense, (#[trigger] alts[i]).key, reading::key_of(w, alts[i])),
            symbol,
        )
}

/// Those of variables that an alternative took.
pub open spec fn branch_marked(
    w: World,
    sense: Sense,
    a: St,
    b: St,
    alts: Seq<Alt>,
    k: nat,
) -> bool {
    &&& only_marked(a, b)
    &&& forall|i: int|
        a.constrained.len() <= i < b.constrained.len() ==> some_takes(
            w,
            sense,
            alts,
            k,
            #[trigger] b.constrained[i],
        ) && model::patterns_of(a.constraints, b.constrained[i]).len() > 0
}

/// Where branches agree, a variable that both bind is at one place.
pub open spec fn agreed(first: Seq<(Symbol, Slot)>, branch: Seq<(Symbol, Slot)>, k: nat) -> bool {
    forall|m: int|
        0 <= m < k ==> (emitting::first_slot(first, (#[trigger] branch[m]).0, 0) matches Some(slot)
            ==> emitting::same_place(slot, branch[m].1))
}

pub proof fn lemma_reconciled(
    cx: Cx,
    st: St,
    at: NodeId,
    first: Seq<(Symbol, Slot)>,
    branch: Seq<(Symbol, Slot)>,
    k: nat,
)
    ensures
        scope::further(st, emitting::reconciled(cx, st, at, first, branch, k)),
        scope::clean(st, emitting::reconciled(cx, st, at, first, branch, k))
            ==> emitting::reconciled(cx, st, at, first, branch, k) == st && agreed(
            first,
            branch,
            k,
        ),
    decreases k,
{
    if k > 0 {
        lemma_reconciled(cx, st, at, first, branch, (k - 1) as nat);
    }
}

/// Reports are only added, and every alternative was declared.
pub proof fn lemma_scan_sources_grow(
    cx: Cx,
    st: St,
    alts: Seq<Alt>,
    k: nat,
    here: Address,
    start: nat,
)
    ensures
        scope::further(st, emitting::scan_sources(
            cx,
            st,
            alts,
            k,
            here,
            start,
        ).st),
        emitting::scan_sources(cx, st, alts, k, here, start).whole ==> (k > 0
            ==> emitting::scan_sources(cx, st, alts, (k - 1) as nat, here, start).whole
            && cx.schema.predicate(alts[k - 1].predicate) is Some),
    decreases k,
{
    if k > 0 {
        let before = emitting::scan_sources(cx, st, alts, (k - 1) as nat, here, start);
        lemma_scan_sources_grow(cx, st, alts, (k - 1) as nat, here, start);
        let alt = alts[k - 1];
        if let Some(declared) = cx.schema.predicate(alt.predicate) {
            taking::lemma_key_grows(cx, before.st, alt.key, declared.key, here);
            let (walked, seek) = model::key(
                cx,
                before.st,
                alt.key,
                declared.key,
                here,
                Seek::empty(),
            );
            let branch = walked.bindings.skip(start as int);
            let restored = St {
                bindings: walked.bindings.take(start as int),
                ..walked.sealing(seek.sealed())
            };
            lemma_reconciled(cx, restored, alt.key, before.first, branch, branch.len());
        }
    }
}

/// The first place of a variable that is taken once.
proof fn lemma_first_slot(
    here: Address,
    taken: Seq<(Symbol, Place)>,
    j: int,
    i: nat,
)
    requires
        taking::distinct(taken),
        i <= j < taken.len(),
    ensures
        emitting::first_slot(matching::slots_at(here, taken), taken[j].0, i) == Some(
            matching::slot_at(here, taken[j].1),
        ),
    decreases j - i,
{
    let slots = matching::slots_at(here, taken);
    assert(slots[i as int].0 == taken[i as int].0);
    if i < j {
        lemma_first_slot(here, taken, j, i + 1);
    }
}

/// What branches have in common, as places and as slots.
#[verifier::rlimit(30)]
proof fn lemma_common(
    here: Address,
    taken: Seq<(Symbol, Place)>,
    other: Seq<(Symbol, Place)>,
    n: nat,
)
    requires
        n <= taken.len(),
        taking::distinct(taken),
        taking::places_sealed(taken),
    ensures
        ({
            let both = reading::common(taken, other, n);
            &&& emitting::shared(
                matching::slots_at(here, taken),
                matching::slots_at(here, other),
                n,
            ) == matching::slots_at(here, both)
            &&& taking::distinct(both)
            &&& taking::places_sealed(both)
            &&& forall|j: int|
                0 <= j < both.len() ==> reading::taken_in(other, (#[trigger] both[j]).0)
                    && exists|i: int| 0 <= i < n && taken[i] == both[j]
        }),
    decreases n,
{
    if n == 0 {
        assert(matching::slots_at(here, Seq::<(Symbol, Place)>::empty()) =~= Seq::<
            (Symbol, Slot),
        >::empty());
    } else {
        let m = (n - 1) as nat;
        lemma_common(here, taken, other, m);
        let before = reading::common(taken, other, m);
        let both = reading::common(taken, other, n);
        let (a, b) = (matching::slots_at(here, taken), matching::slots_at(here, other));
        assert(a[m as int].0 == taken[m as int].0);
        assert(emitting::binds(b, taken[m as int].0) == reading::taken_in(
            other,
            taken[m as int].0,
        )) by {
            if emitting::binds(b, taken[m as int].0) {
                let j = choose|j: int| 0 <= j < b.len() && (#[trigger] b[j]).0 == taken[m as int].0;
                assert(other[j].0 == taken[m as int].0);
            }
            if reading::taken_in(other, taken[m as int].0) {
                let j = choose|j: int|
                    0 <= j < other.len() && (#[trigger] other[j]).0 == taken[m as int].0;
                assert(b[j].0 == taken[m as int].0);
            }
        }
        assert(emitting::shared(a, b, n) =~= matching::slots_at(here, both));
        if reading::taken_in(other, taken[m as int].0) {
            assert forall|i: int, j: int|
                0 <= i < both.len() && 0 <= j < both.len() && (#[trigger] both[i]).0 == (
                #[trigger] both[j]).0 implies i == j by {
                if i < before.len() {
                    let x = choose|x: int| 0 <= x < m && taken[x] == before[i];
                    assert(both[i] == taken[x]);
                }
                if j < before.len() {
                    let x = choose|x: int| 0 <= x < m && taken[x] == before[j];
                    assert(both[j] == taken[x]);
                }
            }
            assert forall|j: int| 0 <= j < both.len() implies reading::taken_in(
                other,
                (#[trigger] both[j]).0,
            ) && exists|i: int| 0 <= i < n && taken[i] == both[j] by {
                if j < before.len() {
                    assert(both[j] == before[j]);
                    let x = choose|x: int| 0 <= x < m && taken[x] == before[j];
                    assert(taken[x] == both[j]);
                } else {
                    assert(taken[m as int] == both[j]);
                }
            }
        } else {
            assert forall|j: int| 0 <= j < both.len() implies exists|i: int|
                0 <= i < n && taken[i] == #[trigger] both[j] by {
                let x = choose|x: int| 0 <= x < m && taken[x] == before[j];
                assert(taken[x] == both[j]);
            }
        }
    }
}

/// Two slots of one row that are at the same place.
proof fn lemma_same_spot(here: Address, a: Place, b: Place)
    requires
        emitting::same_place(matching::slot_at(here, a), matching::slot_at(here, b)),
        a matches Place::Field(path, _) ==> FieldPath::sealed(path.top(), path.inner()),
        b matches Place::Field(path, _) ==> FieldPath::sealed(path.top(), path.inner()),
    ensures
        same_spot(a, b),
{
    if let (Place::Field(p, _), Place::Field(q, _)) = (a, b) {
        FieldPath::lemma_of(p.top(), p.inner());
        FieldPath::lemma_of(q.top(), q.inner());
    }
}

/// What the branches of a scan come to, one after another.
#[verifier::rlimit(30)]
pub proof fn lemma_scan_sources(
    w: World,
    sense: Sense,
    st: St,
    alts: Seq<Alt>,
    k: nat,
    here: Address,
)
    requires
        taking::senses(sense, st.bindings),
        k <= alts.len(),
        ({
            let made = emitting::scan_sources(w.cx, st, alts, k, here, st.bindings.len());
            made.whole && scope::clean(st, made.st)
        }),
    ensures
        ({
            let made = emitting::scan_sources(w.cx, st, alts, k, here, st.bindings.len());
            let taken = reading::shared(w, sense, alts, k);
            &&& branch_marked(w, sense, st, made.st, alts, k)
            &&& made.sources.len() == k
            &&& made.first == matching::slots_at(here, taken)
            &&& taking::places_sealed(taken)
            &&& taking::distinct(taken)
            &&& even(w, sense, alts, k)
            &&& forall|i: int|
                0 <= i < k ==> (#[trigger] made.sources[i]).predicate() == alts[i].predicate
                    && w.cx.schema.predicate(alts[i].predicate) is Some
            &&& forall|i: int|
                0 <= i < k ==> taking::distinct(
                    reading::takes_key(
                        w,
                        sense,
                        (#[trigger] alts[i]).key,
                        reading::key_of(w, alts[i]),
                    ),
                )
        }),
    decreases k,
{
    let start = st.bindings.len();
    if k == 0 {
        assert(st.constrained.take(st.constrained.len() as int) =~= st.constrained);
        assert(matching::slots_at(here, Seq::<(Symbol, Place)>::empty()) =~= Seq::<
            (Symbol, Slot),
        >::empty());
    } else {
        let j = (k - 1) as nat;
        let alt = alts[k - 1];
        let before = emitting::scan_sources(w.cx, st, alts, j, here, start);
        let made = emitting::scan_sources(w.cx, st, alts, k, here, start);
        lemma_scan_sources_grow(w.cx, st, alts, k, here, start);
        lemma_scan_sources_grow(w.cx, st, alts, j, here, start);
        let ty = reading::key_of(w, alt);
        taking::lemma_key_grows(w.cx, before.st, alt.key, ty, here);
        let (walked, seek) = model::key(w.cx, before.st, alt.key, ty, here, Seek::empty());
        let branch = walked.bindings.skip(start as int);
        let restored = St {
            bindings: walked.bindings.take(start as int),
            ..walked.sealing(seek.sealed())
        };
        lemma_reconciled(w.cx, restored, alt.key, before.first, branch, branch.len());
        lemma_scan_sources(w, sense, st, alts, j, here);
        taking::lemma_key_took(w, sense, before.st, alt.key, ty, here);
        let own = reading::takes_key(w, sense, alt.key, ty);
        assert(branch =~= matching::slots_at(here, own));
        assert(restored.bindings =~= st.bindings);
        assert(made.st == restored);
        assert(made.st.constrained.take(st.constrained.len() as int)
            =~= made.st.constrained.take(before.st.constrained.len() as int).take(
            st.constrained.len() as int,
        ));
        assert forall|i: int|
            st.constrained.len() <= i < made.st.constrained.len() implies some_takes(
            w,
            sense,
            alts,
            k,
            #[trigger] made.st.constrained[i],
        ) && model::patterns_of(st.constraints, made.st.constrained[i]).len() > 0 by {
            let symbol = made.st.constrained[i];
            if i < before.st.constrained.len() {
                assert(made.st.constrained.take(before.st.constrained.len() as int)[i]
                    == before.st.constrained[i]);
                let b = choose|b: int|
                    0 <= b < j && taking::takes_field(
                        reading::takes_key(
                            w,
                            sense,
                            (#[trigger] alts[b]).key,
                            reading::key_of(w, alts[b]),
                        ),
                        symbol,
                    );
                assert(0 <= b < k);
            } else {
                assert(taking::takes_field(own, symbol));
                assert(alts[k - 1] == alt);
            }
        }
        assert forall|i: int| 0 <= i < k implies (#[trigger] made.sources[i]).predicate()
            == alts[i].predicate && w.cx.schema.predicate(alts[i].predicate) is Some by {
            if i < j {
                assert(made.sources[i] == before.sources[i]);
            }
        }
        if k > 1 {
            lemma_even_more(w, sense, alts, k, here, branch);
        } else {
            assert(alts[0] == alt);
            assert forall|i: int, m: int|
                #![trigger alts[i], reading::shared(w, sense, alts, k)[m]]
                0 <= i < k && 0 <= m < own.len() implies taken_at(
                reading::takes_key(w, sense, alts[i].key, reading::key_of(w, alts[i])),
                reading::shared(w, sense, alts, k)[m],
            ) by {
                assert(own[m].0 == own[m].0 && same_spot(own[m].1, own[m].1));
            }
        }
    }
}

/// One branch more, which agrees.
proof fn lemma_even_more(
    w: World,
    sense: Sense,
    alts: Seq<Alt>,
    k: nat,
    here: Address,
    branch: Seq<(Symbol, Slot)>,
)
    requires
        1 < k <= alts.len(),
        even(w, sense, alts, (k - 1) as nat),
        taking::distinct(reading::shared(w, sense, alts, (k - 1) as nat)),
        taking::places_sealed(reading::shared(w, sense, alts, (k - 1) as nat)),
        ({
            let own = reading::takes_key(
                w,
                sense,
                alts[k - 1].key,
                reading::key_of(w, alts[k - 1]),
            );
            &&& branch == matching::slots_at(here, own)
            &&& taking::places_sealed(own)
            &&& agreed(
                matching::slots_at(here, reading::shared(w, sense, alts, (k - 1) as nat)),
                branch,
                branch.len(),
            )
        }),
    ensures
        even(w, sense, alts, k),
        taking::distinct(reading::shared(w, sense, alts, k)),
        taking::places_sealed(reading::shared(w, sense, alts, k)),
        ({
            let before = matching::slots_at(
                here,
                reading::shared(w, sense, alts, (k - 1) as nat),
            );
            emitting::shared(before, branch, before.len()) == matching::slots_at(
                here,
                reading::shared(w, sense, alts, k),
            )
        }),
{
    let own = reading::takes_key(w, sense, alts[k - 1].key, reading::key_of(w, alts[k - 1]));
    let before = reading::shared(w, sense, alts, (k - 1) as nat);
    let both = reading::shared(w, sense, alts, k);
    lemma_common(here, before, own, before.len());
    assert forall|i: int, j: int|
        #![trigger alts[i], reading::shared(w, sense, alts, k)[j]]
        0 <= i < k && 0 <= j < both.len() implies taken_at(
        reading::takes_key(w, sense, alts[i].key, reading::key_of(w, alts[i])),
        reading::shared(w, sense, alts, k)[j],
    ) by {
        let x = choose|x: int| 0 <= x < before.len() && before[x] == both[j];
        if i < k - 1 {
            assert(taken_at(
                reading::takes_key(w, sense, alts[i].key, reading::key_of(w, alts[i])),
                before[x],
            ));
        } else {
            assert(reading::taken_in(own, both[j].0));
            let m = choose|m: int| 0 <= m < own.len() && (#[trigger] own[m]).0 == both[j].0;
            lemma_first_slot(here, before, x, 0);
            assert(branch[m] == (own[m].0, matching::slot_at(here, own[m].1)));
            lemma_same_spot(here, before[x].1, own[m].1);
        }
    }
}

/// The marks that are left.
proof fn lemma_applied(
    constrained: Seq<Symbol>,
    n: nat,
    first: Seq<(Symbol, Slot)>,
    k: nat,
)
    requires
        n <= k <= constrained.len(),
    ensures
        ({
            let left = emitting::applied(constrained, n, first, k);
            &&& n <= left.len()
            &&& left.take(n as int) == constrained.take(n as int)
            &&& forall|i: int|
                n <= i < left.len() ==> emitting::binds(first, #[trigger] left[i]) && exists|j: int|
                    n <= j < k && constrained[j] == left[i]
        }),
    decreases k,
{
    if k > n {
        let m = (k - 1) as nat;
        lemma_applied(constrained, n, first, m);
        let before = emitting::applied(constrained, n, first, m);
        let left = emitting::applied(constrained, n, first, k);
        assert(left.take(n as int) =~= before.take(n as int));
        assert forall|i: int| n <= i < left.len() implies emitting::binds(
            first,
            #[trigger] left[i],
        ) && exists|j: int| n <= j < k && constrained[j] == left[i] by {
            if i < before.len() {
                assert(left[i] == before[i]);
                let j = choose|j: int| n <= j < m && constrained[j] == before[i];
                assert(constrained[j] == left[i]);
            } else {
                assert(constrained[m as int] == left[i]);
            }
        }
    } else {
        lemma_applied_all(constrained, n, first, k);
    }
}

proof fn lemma_applied_all(constrained: Seq<Symbol>, n: nat, first: Seq<(Symbol, Slot)>, k: nat)
    requires
        k <= n,
        k <= constrained.len(),
    ensures
        emitting::applied(constrained, n, first, k) == constrained.take(k as int),
    decreases k,
{
    if k == 0 {
        assert(constrained.take(0) =~= Seq::<Symbol>::empty());
    } else {
        lemma_applied_all(constrained, n, first, (k - 1) as nat);
        assert(constrained.take(k as int) =~= constrained.take(k - 1).push(constrained[k - 1]));
    }
}

/// What a scan binds is at the place every alternative takes it at.
pub proof fn lemma_exactly(
    w: World,
    types: Kinds,
    sense: Sense,
    alts: Seq<Alt>,
    k: nat,
    row: Option<Symbol>,
    i: int,
    j: int,
)
    requires
        even(w, sense, alts, k),
        fitted(w, types, alts, row),
        0 <= i < k <= alts.len(),
        0 <= j < reading::shared(w, sense, alts, k).len(),
    ensures
        exists|m: int|
            0 <= m < reading::takes_key(w, sense, alts[i].key, reading::key_of(w, alts[i])).len()
                && #[trigger] reading::takes_key(
                w,
                sense,
                alts[i].key,
                reading::key_of(w, alts[i]),
            )[m] == reading::shared(w, sense, alts, k)[j],
{
    let own = reading::takes_key(w, sense, alts[i].key, reading::key_of(w, alts[i]));
    let first = reading::takes_key(w, sense, alts[0].key, reading::key_of(w, alts[0]));
    let one = reading::shared(w, sense, alts, k)[j];
    assert(taken_at(own, one));
    let m = choose|m: int|
        0 <= m < own.len() && (#[trigger] own[m]).0 == one.0 && same_spot(own[m].1, one.1);
    typing::lemma_shared_first(w, sense, alts, k, j);
    let x = choose|x: int| 0 <= x < first.len() && first[x] == one;
    typing::lemma_occurs(w, sense, alts[i], m);
    typing::lemma_occurs(w, sense, alts[0], x);
    let (a, b) = (typing::occurring(w, alts[i]), typing::occurring(w, alts[0]));
    let p = choose|p: int| 0 <= p < a.len() && a[p] == own[m];
    let q = choose|q: int| 0 <= q < b.len() && b[q] == first[x];
    assert(typing::fits(types(a[p].0), a[p].1));
    assert(typing::fits(types(b[q].0), b[q].1));
    assert(own[m] == one);
}

/// The state a scan leaves: its places, and its row where that is named.
pub open spec fn after_scan(
    st: St,
    made: St,
    here: Address,
    taken: Seq<(Symbol, Place)>,
    alts: Seq<Alt>,
    row: Option<Symbol>,
) -> St {
    let first = matching::slots_at(here, taken);
    let s2 = St {
        bindings: made.bindings + first,
        constrained: emitting::applied(
            made.constrained,
            st.constrained.len(),
            first,
            made.constrained.len(),
        ),
        ..made
    };
    match row {
        Some(symbol) => s2.binding(
            symbol,
            Slot::Row {
                address: here,
                predicate: if alts.len() > 0 {
                    Some(alts[0].predicate)
                } else {
                    None
                },
            },
        ),
        None => s2,
    }
}

/// The constraints that a scan applied to what it binds.
pub proof fn lemma_after_marks(
    w: World,
    types: Kinds,
    sense: Sense,
    st: St,
    made: St,
    here: Address,
    alts: Seq<Alt>,
    row: Option<Symbol>,
)
    requires
        fitted(w, types, alts, row),
        even(w, sense, alts, alts.len()),
        taking::distinct(reading::shared(w, sense, alts, alts.len())),
        forall|i: int|
            0 <= i < alts.len() ==> taking::distinct(
                reading::takes_key(
                    w,
                    sense,
                    (#[trigger] alts[i]).key,
                    reading::key_of(w, alts[i]),
                ),
            ),
        branch_marked(w, sense, st, made, alts, alts.len()),
    ensures
        ({
            let taken = reading::shared(w, sense, alts, alts.len());
            let next = after_scan(st, made, here, taken, alts, row);
            &&& st.constrained.len() <= next.constrained.len()
            &&& next.constrained.take(st.constrained.len() as int) == st.constrained
            &&& forall|i: int|
                st.constrained.len() <= i < next.constrained.len() ==> taking::takes_field(
                    taken,
                    #[trigger] next.constrained[i],
                ) && model::patterns_of(st.constraints, next.constrained[i]).len() > 0
        }),
{
    let taken = reading::shared(w, sense, alts, alts.len());
    let first = matching::slots_at(here, taken);
    let next = after_scan(st, made, here, taken, alts, row);
    let n = st.constrained.len();
    lemma_applied(made.constrained, n, first, made.constrained.len());
    assert forall|i: int| n <= i < next.constrained.len() implies taking::takes_field(
        taken,
        #[trigger] next.constrained[i],
    ) && model::patterns_of(st.constraints, next.constrained[i]).len() > 0 by {
        let symbol = next.constrained[i];
        assert(emitting::binds(first, symbol));
        let x = choose|x: int| 0 <= x < first.len() && (#[trigger] first[x]).0 == symbol;
        assert(taken[x].0 == symbol);
        let j = choose|j: int| n <= j < made.constrained.len() && made.constrained[j] == symbol;
        assert(some_takes(w, sense, alts, alts.len(), made.constrained[j]));
        let b = choose|b: int|
            0 <= b < alts.len() && taking::takes_field(
                reading::takes_key(w, sense, (#[trigger] alts[b]).key, reading::key_of(w, alts[b])),
                symbol,
            );
        let own = reading::takes_key(w, sense, alts[b].key, reading::key_of(w, alts[b]));
        let y = choose|y: int|
            0 <= y < own.len() && (#[trigger] own[y]).0 == symbol && own[y].1 is Field;
        lemma_exactly(w, types, sense, alts, alts.len(), row, b, x);
        let m = choose|m: int| 0 <= m < own.len() && #[trigger] own[m] == taken[x];
        assert(m == y);
    }
}

/// The places a scan names are of their types in the register it fills.
#[verifier::rlimit(30)]
pub proof fn lemma_scan_typed(
    w: World,
    types: Kinds,
    sense: Sense,
    st: St,
    made: St,
    kinds: Seq<Seq<PredicateId>>,
    kind: Seq<PredicateId>,
    here: Address,
    alts: Seq<Alt>,
    row: Option<Symbol>,
)
    requires
        ground(w),
        matching::linked(w, w.cx, st),
        told(w.cx, st, kinds),
        here.0 == kinds.len(),
        even(w, sense, alts, alts.len()),
        fitted(w, types, alts, row),
        present(w, alts),
        kind.len() == alts.len(),
        forall|i: int|
            0 <= i < alts.len() ==> #[trigger] kind[i] == alts[i].predicate
                && w.cx.schema.predicate(alts[i].predicate) is Some,
        only_marked(st, made),
        taking::places_sealed(reading::shared(w, sense, alts, alts.len())),
    ensures
        ({
            let taken = reading::shared(w, sense, alts, alts.len());
            told(w.cx, after_scan(st, made, here, taken, alts, row), kinds.push(kind))
        }),
{
    let taken = reading::shared(w, sense, alts, alts.len());
    let more = kinds.push(kind);
    let after = after_scan(st, made, here, taken, alts, row);
    assert(more.take(kinds.len() as int) =~= kinds);
    lemma_told_more(w.cx, st, kinds, more);
    let slots = matching::slots_at(here, taken);
    assert forall|i: int| 0 <= i < after.bindings.len() implies typed_slot(
        w.cx,
        after.names,
        more,
        (#[trigger] after.bindings[i]).1,
    ) by {
        if i < st.bindings.len() {
            assert(after.bindings[i] == st.bindings[i]);
        } else if i < st.bindings.len() + slots.len() {
            let j = i - st.bindings.len();
            assert(alts.len() > 0);
            assert(after.bindings[i] == slots[j]);
            let slot = matching::slot_at(here, taken[j].1);
            assert(slots[j].1 == slot);
            assert forall|env: Seq<Option<Fact>>|
                filled_at(w.cx, w.names, env, more, here) implies (
            #[trigger] matching::sound_slot(w.cx, w.names, env, slot)) by {
                let fact = machine::held(env, here)->Ok_0;
                let a = choose|a: int|
                    0 <= a < kind.len() && matching::of_predicate(
                        w.cx,
                        w.names,
                        fact,
                        #[trigger] kind[a],
                    );
                let ty = reading::key_of(w, alts[a]);
                assert(kind[a] == alts[a].predicate);
                assert(w.cx.schema.predicate(alts[a].predicate) is Some);
                let d = choose|d: Datum| #[trigger] layout::key_is(w.names, fact.key(), ty, d);
                let own = reading::takes_key(w, sense, alts[a].key, reading::key_of(w, alts[a]));
                lemma_exactly(w, types, sense, alts, alts.len(), row, a, j);
                let m = choose|m: int| 0 <= m < own.len() && #[trigger] own[m] == taken[j];
                taking::lemma_key_there(
                    w,
                    sense,
                    fact,
                    alts[a].key,
                    ty,
                    d,
                    false,
                );
                assert(taking::there(w, fact, own[m], false));
                if let Place::Field(path, _) = taken[j].1 {
                    FieldPath::lemma_of(path.top(), path.inner());
                }
            }
        } else {
            let slot = after.bindings[i].1;
            assert forall|env: Seq<Option<Fact>>|
                filled_at(w.cx, w.names, env, more, here) implies (
            #[trigger] matching::sound_slot(w.cx, w.names, env, slot)) by {
                if alts.len() > 0 {
                    let fact = machine::held(env, here)->Ok_0;
                    let a = choose|a: int|
                        0 <= a < kind.len() && matching::of_predicate(
                            w.cx,
                            w.names,
                            fact,
                            #[trigger] kind[a],
                        );
                    assert(kind[a] == alts[a].predicate);
                    assert(types(row->0).ty == PredicateTy::Fact(alts[a].predicate));
                    assert(types(row->0).ty == PredicateTy::Fact(alts[0].predicate));
                }
            }
        }
    }
}

/// Bindings that end in places of one row.
pub proof fn lemma_taken_sense(
    bindings: Seq<(Symbol, Slot)>,
    env: Seq<Option<Fact>>,
    here: Address,
    fact: Fact,
    taken: Seq<(Symbol, Place)>,
)
    requires
        matching::fact_in(env, here) == fact,
        taking::places_sealed(taken),
    ensures
        matching::sense_of(bindings + matching::slots_at(here, taken), env) == reading::taking(
            matching::sense_of(bindings, env),
            fact,
            taken,
        ),
{
    let more = bindings + matching::slots_at(here, taken);
    assert forall|symbol: Symbol|
        #[trigger] matching::sense_of(more, env)(symbol) == reading::taking(
            matching::sense_of(bindings, env),
            fact,
            taken,
        )(symbol) by {
        lemma_taken_lookup(bindings, here, taken, symbol);
        lemma_place_of(taken, symbol);
        if let Some(place) = reading::place_of(taken, symbol) {
            let j = choose|j: int| 0 <= j < taken.len() && taken[j] == (symbol, place);
            assert(taken[j].1 == place);
            if let Place::Field(path, _) = place {
                FieldPath::lemma_of(path.top(), path.inner());
            }
        }
    }
    assert(matching::sense_of(more, env) =~= reading::taking(
        matching::sense_of(bindings, env),
        fact,
        taken,
    ));
}

pub proof fn lemma_taken_lookup(
    bindings: Seq<(Symbol, Slot)>,
    here: Address,
    taken: Seq<(Symbol, Place)>,
    symbol: Symbol,
)
    ensures
        model::lookup(bindings + matching::slots_at(here, taken), symbol) == (
        match reading::place_of(taken, symbol) {
            Some(place) => Some(matching::slot_at(here, place)),
            None => model::lookup(bindings, symbol),
        }),
    decreases taken.len(),
{
    let more = bindings + matching::slots_at(here, taken);
    if taken.len() == 0 {
        assert(more =~= bindings);
    } else {
        let shorter = taken.drop_last();
        assert(more.drop_last() =~= bindings + matching::slots_at(here, shorter));
        lemma_taken_lookup(bindings, here, shorter, symbol);
    }
}

/// A scan over one more fact has found what the fact makes of what was found.
pub proof fn lemma_scan_found(
    w: World,
    types: Kinds,
    st: St,
    made: St,
    kinds: Seq<Seq<PredicateId>>,
    env: Seq<Option<Fact>>,
    filled: Seq<Option<Fact>>,
    here: Address,
    scan: Gen,
    i: int,
    fact: Fact,
)
    requires
        told(w.cx, st, kinds),
        fitted(w, types, scan.alternatives@, scan.row),
        0 <= i < scan.alternatives@.len(),
        taking::places_sealed(
            reading::bindings(w, matching::sense_of(st.bindings, env), scan),
        ),
        made.bindings == st.bindings,
        made.compares == st.compares,
        matching::fact_in(filled, here) == fact,
        forall|j: int| 0 <= j < kinds.len() ==> env[j] == #[trigger] filled[j],
    ensures
        ({
            let sense = matching::sense_of(st.bindings, env);
            let taken = reading::bindings(w, sense, scan);
            found_in(after_scan(st, made, here, taken, scan.alternatives@, scan.row), filled)
                == reading::with_fact(
                w,
                found_in(st, env),
                scan,
                scan.alternatives@[i],
                fact,
            )
        }),
{
    let alts = scan.alternatives@;
    let sense = matching::sense_of(st.bindings, env);
    let taken = reading::bindings(w, sense, scan);
    lemma_found_stays(w.cx, st, kinds, env, filled);
    assert(matching::sense_of(st.bindings, filled) == sense);
    assert(found_in(st, filled).pairs == found_in(st, env).pairs);
    lemma_taken_sense(st.bindings, filled, here, fact, taken);
    let bindings = st.bindings + matching::slots_at(here, taken);
    if let Some(symbol) = scan.row {
        lemma_named_last(
            bindings,
            filled,
            symbol,
            Slot::Row { address: here, predicate: Some(alts[0].predicate) },
        );
        assert(types(symbol).ty == PredicateTy::Fact(alts[i].predicate));
        assert(types(symbol).ty == PredicateTy::Fact(alts[0].predicate));
    }
}

/// What a state and its registers have to be for a level to be read.
pub open spec fn readied<S: FactStore>(
    w: World,
    store: S,
    st: St,
    kinds: Seq<Seq<PredicateId>>,
    env: Seq<Option<Fact>>,
) -> bool {
    &&& ground(w)
    &&& reads(w, store)
    &&& matching::well_typed(w.cx, w.names, store)
    &&& matching::linked(w, w.cx, st)
    &&& told(w.cx, st, kinds)
    &&& fits(w.cx, w, st, kinds, env)
}

/// One alternative's source offers the facts it matches.
pub proof fn lemma_offer<S: FactStore>(
    w: World,
    store: S,
    st: St,
    s: St,
    kinds: Seq<Seq<PredicateId>>,
    env: Seq<Option<Fact>>,
    alt: Alt,
    here: Address,
)
    requires
        readied(w, store, st, kinds, env),
        here.0 == kinds.len(),
        w.cx.ast.has(alt.key),
        w.cx.schema.predicate(alt.predicate) is Some,
        s.bindings == st.bindings,
        s.hoisted == st.hoisted,
        s.fetched == st.fetched,
        s.constraints == st.constraints,
        s.names == st.names,
        scope::clean(s, model::key(
            w.cx,
            s,
            alt.key,
            reading::key_of(w, alt),
            here,
            Seek::empty(),
        ).0),
        model::key(
            w.cx,
            s,
            alt.key,
            reading::key_of(w, alt),
            here,
            Seek::empty(),
        ).1.sealed(),
    ensures
        ({
            let seek = model::key(
                w.cx,
                s,
                alt.key,
                reading::key_of(w, alt),
                here,
                Seek::empty(),
            ).1;
            answers::offered(store, env, emitting::source_of(alt, seek)) == (Offer {
                facts: reading::matched(w, matching::sense_of(st.bindings, env), alt),
                error: None,
            })
        }),
{
    lemma_sound(w.cx, w, st, kinds, env);
    assert(st.bindings.take(st.bindings.len() as int) =~= st.bindings);
    assert(machine::held(env, here) is Err) by {
        if here.0 < env.len() {
            assert(env[here.0 as int] is None);
        }
    }
    matching::law_a_level_offers_what_its_pattern_matches(
        w.cx,
        st,
        s,
        store,
        env,
        w,
        alt,
        here,
    );
}

/// Every branch of a scan offers the facts it matches.
pub proof fn lemma_scan_offers<S: FactStore>(
    w: World,
    store: S,
    st: St,
    kinds: Seq<Seq<PredicateId>>,
    env: Seq<Option<Fact>>,
    alts: Seq<Alt>,
    k: nat,
    here: Address,
)
    requires
        readied(w, store, st, kinds, env),
        here.0 == kinds.len(),
        present(w, alts),
        k <= alts.len(),
        ({
            let made = emitting::scan_sources(w.cx, st, alts, k, here, st.bindings.len());
            made.whole && scope::clean(st, made.st)
        }),
    ensures
        ({
            let made = emitting::scan_sources(w.cx, st, alts, k, here, st.bindings.len());
            &&& made.sources.len() == k
            &&& forall|i: int|
                0 <= i < k ==> answers::offered(store, env, #[trigger] made.sources[i]) == (Offer {
                    facts: reading::matched(w, matching::sense_of(st.bindings, env), alts[i]),
                    error: None,
                })
        }),
    decreases k,
{
    if k > 0 {
        let j = (k - 1) as nat;
        let start = st.bindings.len();
        let sense = matching::sense_of(st.bindings, env);
        let alt = alts[k - 1];
        let before = emitting::scan_sources(w.cx, st, alts, j, here, start);
        let made = emitting::scan_sources(w.cx, st, alts, k, here, start);
        lemma_scan_sources_grow(w.cx, st, alts, k, here, start);
        lemma_scan_sources_grow(w.cx, st, alts, j, here, start);
        let ty = reading::key_of(w, alt);
        taking::lemma_key_grows(w.cx, before.st, alt.key, ty, here);
        let (walked, seek) = model::key(w.cx, before.st, alt.key, ty, here, Seek::empty());
        let branch = walked.bindings.skip(start as int);
        let restored = St {
            bindings: walked.bindings.take(start as int),
            ..walked.sealing(seek.sealed())
        };
        lemma_reconciled(w.cx, restored, alt.key, before.first, branch, branch.len());
        lemma_scan_offers(w, store, st, kinds, env, alts, j, here);
        lemma_senses(st.bindings, env);
        lemma_scan_sources(w, sense, st, alts, j, here);
        lemma_offer(w, store, st, before.st, kinds, env, alt, here);
        assert forall|i: int| 0 <= i < k implies answers::offered(
            store,
            env,
            #[trigger] made.sources[i],
        ) == (Offer {
            facts: reading::matched(w, matching::sense_of(st.bindings, env), alts[i]),
            error: None,
        }) by {
            if i < j {
                assert(made.sources[i] == before.sources[i]);
            }
        }
    }
}

// ---- negations --------------------------------------------------------------

/// A negation names no variable first.
pub open spec fn settled(w: World, sense: Sense, alts: Seq<Alt>) -> bool {
    forall|i: int|
        0 <= i < alts.len() ==> reading::takes_key(
            w,
            sense,
            (#[trigger] alts[i]).key,
            reading::key_of(w, alts[i]),
        ) == Seq::<(Symbol, Place)>::empty()
}

pub proof fn lemma_test_sources_grow(cx: Cx, st: St, alts: Seq<Alt>, k: nat, here: Address)
    ensures
        scope::further(st, emitting::test_sources(cx, st, alts, k, here).st),
        emitting::test_sources(cx, st, alts, k, here).whole ==> (k > 0 ==> emitting::test_sources(
            cx,
            st,
            alts,
            (k - 1) as nat,
            here,
        ).whole && cx.schema.predicate(alts[k - 1].predicate) is Some),
    decreases k,
{
    if k > 0 {
        let before = emitting::test_sources(cx, st, alts, (k - 1) as nat, here);
        lemma_test_sources_grow(cx, st, alts, (k - 1) as nat, here);
        let alt = alts[k - 1];
        if let Some(declared) = cx.schema.predicate(alt.predicate) {
            taking::lemma_key_grows(cx, before.st, alt.key, declared.key, here);
        }
    }
}

/// Every variable a negation names is bound.
pub open spec fn all_bound(w: World, bindings: Seq<(Symbol, Slot)>, alts: Seq<Alt>) -> bool {
    forall|i: int, symbol: Symbol|
        #![trigger alts[i], model::lookup(bindings, symbol)]
        0 <= i < alts.len() && reading::taken_in(typing::occurring(w, alts[i]), symbol)
            ==> model::lookup(bindings, symbol) is Some
}

pub proof fn lemma_all_bound(
    w: World,
    sense: Sense,
    bindings: Seq<(Symbol, Slot)>,
    alts: Seq<Alt>,
)
    requires
        taking::senses(sense, bindings),
        all_bound(w, bindings, alts),
    ensures
        settled(w, sense, alts),
{
    assert forall|i: int| 0 <= i < alts.len() implies reading::takes_key(
        w,
        sense,
        (#[trigger] alts[i]).key,
        reading::key_of(w, alts[i]),
    ) == Seq::<(Symbol, Place)>::empty() by {
        let own = reading::takes_key(w, sense, alts[i].key, reading::key_of(w, alts[i]));
        if own.len() > 0 {
            let symbol = own[0].0;
            assert(reading::taken_in(own, symbol));
            typing::lemma_occurs_taken(w, sense, alts[i], symbol);
            assert(model::lookup(bindings, symbol) is Some);
        }
        assert(own =~= Seq::empty());
    }
}

/// A negation keeps what was bound.
pub proof fn lemma_tested(w: World, st: St, alts: Seq<Alt>, k: nat, here: Address)
    requires
        ({
            let made = emitting::test_sources(w.cx, st, alts, k, here);
            made.whole && scope::clean(st, made.st)
        }),
    ensures
        ({
            let made = emitting::test_sources(w.cx, st, alts, k, here);
            &&& st.bindings.is_prefix_of(made.st.bindings)
            &&& made.st.compares == st.compares
            &&& made.st.hoisted == st.hoisted
            &&& made.st.fetched == st.fetched
            &&& made.st.constraints == st.constraints
            &&& made.st.names == st.names
        }),
    decreases k,
{
    if k > 0 {
        let j = (k - 1) as nat;
        let before = emitting::test_sources(w.cx, st, alts, j, here);
        lemma_test_sources_grow(w.cx, st, alts, k, here);
        lemma_test_sources_grow(w.cx, st, alts, j, here);
        let ty = w.cx.schema.predicate(alts[k - 1].predicate)->0.key;
        taking::lemma_key_grows(w.cx, before.st, alts[k - 1].key, ty, here);
        lemma_tested(w, st, alts, j, here);
        let sense = matching::sense_of(before.st.bindings, Seq::empty());
        lemma_senses(before.st.bindings, Seq::empty());
        taking::lemma_key_took(w, sense, before.st, alts[k - 1].key, ty, here);
        let made = emitting::test_sources(w.cx, st, alts, k, here);
        assert(made.st.bindings.take(st.bindings.len() as int) =~= before.st.bindings.take(
            st.bindings.len() as int,
        ));
        assert(before.st.bindings.take(st.bindings.len() as int) =~= st.bindings);
        assert(st.bindings =~= made.st.bindings.subrange(0, st.bindings.len() as int));
    }
}

/// A negation changes nothing.
pub proof fn lemma_test_sources(
    w: World,
    sense: Sense,
    st: St,
    alts: Seq<Alt>,
    k: nat,
    here: Address,
)
    requires
        taking::senses(sense, st.bindings),
        settled(w, sense, alts),
        k <= alts.len(),
        ({
            let made = emitting::test_sources(w.cx, st, alts, k, here);
            made.whole && scope::clean(st, made.st)
        }),
    ensures
        ({
            let made = emitting::test_sources(w.cx, st, alts, k, here);
            &&& only_constrained(st, made.st, Seq::empty())
            &&& made.sources.len() == k
        }),
    decreases k,
{
    let none = Seq::<(Symbol, Place)>::empty();
    if k == 0 {
        assert(st.constrained.take(st.constrained.len() as int) =~= st.constrained);
    } else {
        let j = (k - 1) as nat;
        let alt = alts[k - 1];
        let before = emitting::test_sources(w.cx, st, alts, j, here);
        lemma_test_sources_grow(w.cx, st, alts, k, here);
        lemma_test_sources_grow(w.cx, st, alts, j, here);
        let ty = reading::key_of(w, alt);
        taking::lemma_key_grows(w.cx, before.st, alt.key, ty, here);
        lemma_test_sources(w, sense, st, alts, j, here);
        taking::lemma_key_took(w, sense, before.st, alt.key, ty, here);
        assert(reading::takes_key(w, sense, alts[k - 1].key, reading::key_of(w, alts[k - 1]))
            == none);
        let made = emitting::test_sources(w.cx, st, alts, k, here);
        assert(matching::slots_at(here, none) =~= Seq::<(Symbol, Slot)>::empty());
        assert(made.st.bindings =~= st.bindings);
        assert(made.st.constrained.take(st.constrained.len() as int)
            =~= made.st.constrained.take(before.st.constrained.len() as int).take(
            st.constrained.len() as int,
        ));
        assert forall|i: int|
            st.constrained.len() <= i < made.st.constrained.len() implies taking::takes_field(
            none,
            #[trigger] made.st.constrained[i],
        ) && model::patterns_of(st.constraints, made.st.constrained[i]).len() > 0 by {
            if i < before.st.constrained.len() {
                assert(made.st.constrained.take(before.st.constrained.len() as int)[i]
                    == before.st.constrained[i]);
            }
        }
    }
}

/// Every alternative of a negation offers the facts it matches.
pub proof fn lemma_test_offers<S: FactStore>(
    w: World,
    store: S,
    st: St,
    kinds: Seq<Seq<PredicateId>>,
    env: Seq<Option<Fact>>,
    alts: Seq<Alt>,
    k: nat,
    here: Address,
)
    requires
        readied(w, store, st, kinds, env),
        here.0 == kinds.len(),
        settled(w, matching::sense_of(st.bindings, env), alts),
        present(w, alts),
        k <= alts.len(),
        ({
            let made = emitting::test_sources(w.cx, st, alts, k, here);
            made.whole && scope::clean(st, made.st)
        }),
    ensures
        ({
            let made = emitting::test_sources(w.cx, st, alts, k, here);
            &&& made.sources.len() == k
            &&& forall|i: int|
                0 <= i < k ==> answers::offered(store, env, #[trigger] made.sources[i]) == (Offer {
                    facts: reading::matched(w, matching::sense_of(st.bindings, env), alts[i]),
                    error: None,
                })
        }),
    decreases k,
{
    if k > 0 {
        let j = (k - 1) as nat;
        let sense = matching::sense_of(st.bindings, env);
        let alt = alts[k - 1];
        let before = emitting::test_sources(w.cx, st, alts, j, here);
        let made = emitting::test_sources(w.cx, st, alts, k, here);
        lemma_test_sources_grow(w.cx, st, alts, k, here);
        lemma_test_sources_grow(w.cx, st, alts, j, here);
        let ty = reading::key_of(w, alt);
        taking::lemma_key_grows(w.cx, before.st, alt.key, ty, here);
        lemma_test_offers(w, store, st, kinds, env, alts, j, here);
        lemma_senses(st.bindings, env);
        lemma_test_sources(w, sense, st, alts, j, here);
        lemma_offer(w, store, st, before.st, kinds, env, alt, here);
        assert forall|i: int| 0 <= i < k implies answers::offered(
            store,
            env,
            #[trigger] made.sources[i],
        ) == (Offer {
            facts: reading::matched(w, matching::sense_of(st.bindings, env), alts[i]),
            error: None,
        }) by {
            if i < j {
                assert(made.sources[i] == before.sources[i]);
            }
        }
    }
}

/// No source has a row where no alternative matches a fact.
pub proof fn lemma_absent<S: FactStore>(
    w: World,
    store: S,
    sense: Sense,
    env: Seq<Option<Fact>>,
    sources: Seq<Source>,
    alts: Seq<Alt>,
)
    requires
        sources.len() == alts.len(),
        forall|i: int|
            0 <= i < sources.len() ==> answers::offered(store, env, #[trigger] sources[i]) == (
            Offer { facts: reading::matched(w, sense, alts[i]), error: None }),
    ensures
        answers::absent(store, env, sources) == Ok::<bool, ApertureError>(
            reading::denied(w, sense, alts),
        ),
    decreases sources.len(),
{
    if sources.len() > 0 {
        let (rest, others) = (sources.skip(1), alts.skip(1));
        assert forall|i: int| 0 <= i < rest.len() implies answers::offered(
            store,
            env,
            #[trigger] rest[i],
        ) == (Offer { facts: reading::matched(w, sense, others[i]), error: None }) by {
            assert(rest[i] == sources[i + 1]);
            assert(others[i] == alts[i + 1]);
        }
        lemma_absent(w, store, sense, env, rest, others);
        assert(answers::offered(store, env, sources[0]) == (Offer {
            facts: reading::matched(w, sense, alts[0]),
            error: None,
        }));
        if reading::denied(w, sense, alts) {
            assert(reading::matched(w, sense, alts[0]).len() == 0);
            assert forall|i: int| 0 <= i < others.len() implies reading::matched(
                w,
                sense,
                #[trigger] others[i],
            ).len() == 0 by {
                assert(others[i] == alts[i + 1]);
            }
        } else {
            let i = choose|i: int|
                0 <= i < alts.len() && reading::matched(w, sense, #[trigger] alts[i]).len() != 0;
            if i > 0 {
                assert(others[i - 1] == alts[i]);
            }
        }
    }
}

// ---- one statement ----------------------------------------------------------

/// A statement as flattening gathers it.
pub open spec fn proper(w: World, types: Kinds, stmt: Stmt) -> bool {
    match stmt {
        Stmt::Scan(scan) => fitted(w, types, scan.alternatives@, scan.row) && present(
            w,
            scan.alternatives@,
        ) && (scan.row matches Some(row) ==> scan.alternatives@.len() > 0 ==> model::patterns_of(
            w.constraints,
            row,
        ).len() == 0),
        Stmt::Negate(tested) => present(w, tested.alternatives@),
        _ => true,
    }
}

/// Levels and reports are only added.
pub proof fn lemma_stmt_more(cx: Cx, st: St, built: Built, stmt: Stmt)
    ensures
        scope::further(st, emitting::emitted_stmt(cx, st, built, stmt).0),
        emitting::emitted_stmt(cx, st, built, stmt).1 matches Some(b) ==> built.levels <= b.levels,
{
    match stmt {
        Stmt::Scan(scan) => {
            let alts = scan.alternatives@;
            lemma_fetch_more_alts(cx, st, built, alts, alts.len());
            let (s1, b1) = emitting::fetch_alts(cx, st, built, alts, alts.len());
            lemma_scan_sources_grow(cx, s1, alts, alts.len(), b1.next(), s1.bindings.len());
        },
        Stmt::Alias(alias) => {
            lemma_fetch_more(cx, st, built, alias.value);
            let (s1, b1) = emitting::fetch_within(cx, st, built, alias.value);
            lemma_fetch_more(cx, s1, b1, alias.pattern);
            let (s2, b2) = emitting::fetch_within(cx, s1, b1, alias.pattern);
            matching::lemma_resolve_only(cx, s2, alias.value);
            let (s3, found) = model::resolve(cx, s2, alias.value);
            if let Some(slot) = found {
                lemma_bind_only(cx, s3, alias.pattern, slot);
            }
        },
        Stmt::Negate(tested) => {
            let alts = tested.alternatives@;
            lemma_test_sources_grow(cx, st, alts, alts.len(), built.next());
        },
        Stmt::Constrain(_) => {},
    }
}

pub proof fn lemma_senses(bindings: Seq<(Symbol, Slot)>, env: Seq<Option<Fact>>)
    ensures
        taking::senses(matching::sense_of(bindings, env), bindings),
{
}

/// A scan keeps every place of its type.
proof fn lemma_scan_stmt_typed(w: World, types: Kinds, st: St, built: Built, scan: Gen)
    requires
        begun(w, st, built),
        proper(w, types, Stmt::Scan(scan)),
        ({
            let (s1, found) = emitting::emitted_stmt(w.cx, st, built, Stmt::Scan(scan));
            &&& scope::clean(st, s1)
            &&& found matches Some(b1) && b1.levels <= usize::MAX
        }),
    ensures
        ({
            let (s1, found) = emitting::emitted_stmt(w.cx, st, built, Stmt::Scan(scan));
            &&& begun(w, s1, found->0)
            &&& grown(built, found->0)
        }),
{
    let (after, found) = emitting::emitted_stmt(w.cx, st, built, Stmt::Scan(scan));
    let sense = matching::sense_of(st.bindings, Seq::empty());
    lemma_senses(st.bindings, Seq::empty());
    assert(built.steps.take(built.steps.len() as int) =~= built.steps);
    let alts = scan.alternatives@;
    let (s1, b1) = emitting::fetch_alts(w.cx, st, built, alts, alts.len());
    lemma_fetch_more_alts(w.cx, st, built, alts, alts.len());
    let here = b1.next();
    let made = emitting::scan_sources(
        w.cx,
        s1,
        alts,
        alts.len(),
        here,
        s1.bindings.len(),
    );
    lemma_scan_sources_grow(w.cx, s1, alts, alts.len(), here, s1.bindings.len());
    lemma_fetch_alts_typed(w, st, built, alts, alts.len());
    lemma_scan_sources(w, sense, s1, alts, alts.len(), here);
    let level = Level {
        sources: boxed::boxed(made.sources),
        binds: boxed::boxed(seq![here]),
    };
    let kinds = kinds_of(b1.steps);
    let kind = predicates(level.sources@);
    assert(level.sources@ == made.sources);
    lemma_with_level(b1, level);
    lemma_grown(built, b1, b1.with_level(level));
    assert forall|i: int| 0 <= i < alts.len() implies #[trigger] kind[i]
        == alts[i].predicate && w.cx.schema.predicate(alts[i].predicate) is Some by {
        assert(made.sources[i].predicate() == alts[i].predicate);
    }
    lemma_scan_typed(
        w,
        types,
        sense,
        s1,
        made.st,
        kinds,
        kind,
        here,
        alts,
        scan.row,
    );
    let taken = reading::shared(w, sense, alts, alts.len());
    assert(after == after_scan(s1, made.st, here, taken, alts, scan.row));
}

/// A statement keeps every place of its type.
pub proof fn lemma_stmt_typed(w: World, types: Kinds, st: St, built: Built, stmt: Stmt)
    requires
        begun(w, st, built),
        proper(w, types, stmt),
        ({
            let (s1, found) = emitting::emitted_stmt(w.cx, st, built, stmt);
            &&& scope::clean(st, s1)
            &&& found matches Some(b1) && b1.levels <= usize::MAX
        }),
    ensures
        ({
            let (s1, found) = emitting::emitted_stmt(w.cx, st, built, stmt);
            &&& begun(w, s1, found->0)
            &&& grown(built, found->0)
        }),
{
    let (after, found) = emitting::emitted_stmt(w.cx, st, built, stmt);
    let sense = matching::sense_of(st.bindings, Seq::empty());
    lemma_senses(st.bindings, Seq::empty());
    assert(built.steps.take(built.steps.len() as int) =~= built.steps);
    match stmt {
        Stmt::Scan(scan) => lemma_scan_stmt_typed(w, types, st, built, scan),
        Stmt::Alias(alias) => {
            let (s1, b1) = emitting::fetch_within(w.cx, st, built, alias.value);
            let (s2, b2) = emitting::fetch_within(w.cx, s1, b1, alias.pattern);
            lemma_fetch_more(w.cx, st, built, alias.value);
            lemma_fetch_more(w.cx, s1, b1, alias.pattern);
            matching::lemma_resolve_only(w.cx, s2, alias.value);
            let (s3, place) = model::resolve(w.cx, s2, alias.value);
            if let Some(slot) = place {
                lemma_bind_only(w.cx, s3, alias.pattern, slot);
            }
            lemma_fetch_typed(w, st, built, alias.value);
            lemma_fetch_typed(w, s1, b1, alias.pattern);
            lemma_grown(built, b1, b2);
            lemma_resolve_typed(w.cx, s2, kinds_of(b2.steps), alias.value);
            if let Some(slot) = place {
                lemma_bind_typed(w.cx, s3, kinds_of(b2.steps), alias.pattern, slot);
            }
        },
        Stmt::Negate(tested) => {
            let alts = tested.alternatives@;
            lemma_test_sources_grow(w.cx, st, alts, alts.len(), built.next());
            lemma_tested(w, st, alts, alts.len(), built.next());
            let made = emitting::test_sources(w.cx, st, alts, alts.len(), built.next());
            let b1 = found->0;
            assert(after.bindings =~= st.bindings);
            lemma_with_test(built, Test::Absent(boxed::boxed(made.sources)));
        },
        Stmt::Constrain(_) => {},
    }
}

// ---- constraints ------------------------------------------------------------

/// What a variable stands for is allowed by everything the body constrains it by.
pub open spec fn obeys(w: World, sense: Sense, symbol: Symbol) -> bool {
    sense(symbol) matches Some(Thing::Field { fact, path, .. }) && exists|d: Datum|
        #[trigger] layout::holds_at(fact.key(), path, d) && reading::allowed(w, symbol, d)
}

/// Every constraint that was applied holds.
pub open spec fn obeyed(w: World, st: St, sense: Sense) -> bool {
    forall|i: int|
        0 <= i < st.constrained.len() ==> obeys(w, sense, #[trigger] st.constrained[i])
            && model::patterns_of(w.constraints, st.constrained[i]).len() > 0
}

/// A variable that stands for something goes on to stand for it.
pub proof fn lemma_naming_keeps(
    w: World,
    found: Found,
    pattern: NodeId,
    thing: Thing,
    symbol: Symbol,
)
    requires
        (found.sense)(symbol) is Some,
    ensures
        (reading::with_name(w, found, pattern, thing).sense)(symbol) == (found.sense)(symbol),
    decreases pattern.0, 1nat, 0nat,
{
    if let ExprKind::Record(fields) = w.cx.ast.kind(pattern) {
        lemma_naming_keeps_pieces(w, found, pattern, thing, fields@, fields@.len(), symbol);
    }
}

pub proof fn lemma_naming_keeps_pieces(
    w: World,
    found: Found,
    pattern: NodeId,
    thing: Thing,
    fields: Seq<(Symbol, NodeId)>,
    k: nat,
    symbol: Symbol,
)
    requires
        (found.sense)(symbol) is Some,
    ensures
        (reading::with_pieces(w, found, pattern, thing, fields, k).sense)(symbol)
            == (found.sense)(symbol),
    decreases pattern.0, 0nat, k,
{
    if k > 0 {
        let j = (k - 1) as nat;
        lemma_naming_keeps_pieces(w, found, pattern, thing, fields, j, symbol);
        let before = reading::with_pieces(w, found, pattern, thing, fields, j);
        if let Some(inner) = reading::piece(w, thing, fields[k - 1].0) {
            if fields[k - 1].1.0 < pattern.0 {
                lemma_naming_keeps(w, before, fields[k - 1].1, inner, symbol);
            }
        }
    }
}

pub proof fn lemma_place_of(taken: Seq<(Symbol, Place)>, symbol: Symbol)
    ensures
        match reading::place_of(taken, symbol) {
            Some(place) => exists|j: int| 0 <= j < taken.len() && taken[j] == (symbol, place),
            None => forall|j: int| 0 <= j < taken.len() ==> (#[trigger] taken[j]).0 != symbol,
        },
    decreases taken.len(),
{
    if taken.len() > 0 {
        let shorter = taken.drop_last();
        lemma_place_of(shorter, symbol);
        assert(taken[taken.len() - 1] == taken.last());
        if taken.last().0 != symbol {
            match reading::place_of(shorter, symbol) {
                Some(place) => {
                    let j = choose|j: int| 0 <= j < shorter.len() && shorter[j] == (symbol, place);
                    assert(taken[j] == shorter[j]);
                },
                None => {
                    assert forall|j: int| 0 <= j < taken.len() implies (#[trigger] taken[j]).0
                        != symbol by {
                        if j < shorter.len() {
                            assert(taken[j] == shorter[j]);
                        }
                    }
                },
            }
        }
    }
}

/// A fact that an alternative of a scan matches obeys the constraints on what is taken of it.
pub proof fn lemma_taken_obeys(
    w: World,
    types: Kinds,
    found: Found,
    scan: Gen,
    i: int,
    fact: Fact,
    symbol: Symbol,
)
    requires
        w.cx.ast.wf(),
        0 <= i < scan.alternatives@.len(),
        w.cx.ast.has(scan.alternatives@[i].key),
        reading::matches(w, found.sense, scan.alternatives@[i], fact),
        scan.row != Some(symbol),
        even(w, found.sense, scan.alternatives@, scan.alternatives@.len()),
        fitted(w, types, scan.alternatives@, scan.row),
        taking::distinct(reading::bindings(w, found.sense, scan)),
        taking::takes_field(reading::bindings(w, found.sense, scan), symbol),
    ensures
        obeys(
            w,
            reading::with_fact(w, found, scan, scan.alternatives@[i], fact).sense,
            symbol,
        ),
{
    let alts = scan.alternatives@;
    let alt = alts[i];
    let ty = reading::key_of(w, alt);
    let sense = found.sense;
    let own = reading::takes_key(w, sense, alt.key, ty);
    let taken = reading::bindings(w, sense, scan);
    let d = choose|d: Datum|
        #[trigger] layout::key_is(w.names, fact.key(), ty, d) && reading::means_key(
            w,
            sense,
            alt.key,
            ty,
            d,
        );
    taking::lemma_key_there(w, sense, fact, alt.key, ty, d, true);
    lemma_place_of(taken, symbol);
    let j = choose|j: int|
        0 <= j < taken.len() && (#[trigger] taken[j]).0 == symbol && taken[j].1 is Field;
    assert(reading::place_of(taken, symbol) is Some);
    let place = reading::place_of(taken, symbol)->0;
    let l = choose|l: int| 0 <= l < taken.len() && taken[l] == (symbol, place);
    assert(l == j);
    lemma_exactly(w, types, sense, alts, alts.len(), scan.row, i, j);
    let m = choose|m: int| 0 <= m < own.len() && #[trigger] own[m] == taken[j];
    assert(taking::there(w, fact, own[m], true));
    let one = own[m];
    let x = choose|x: Datum|
        #[trigger] layout::holds_at(fact.key(), one.1->Field_0, x) && reading::allowed(
            w,
            one.0,
            x,
        );
    assert(layout::holds_at(fact.key(), one.1->Field_0, x) && reading::allowed(w, one.0, x));
    let after = reading::with_fact(w, found, scan, alt, fact).sense;
    assert(reading::taking(sense, fact, taken)(symbol) == Some(reading::thing_at(fact, place)));
    assert(after(symbol) == Some(reading::thing_at(fact, place)));
    if let Some(Thing::Field { fact: f, path, .. }) = after(symbol) {
        assert(layout::holds_at(f.key(), path, x) && reading::allowed(w, symbol, x));
        assert(obeys(w, after, symbol));
    }
}

/// A variable that stood for something goes on to stand for it.
pub proof fn lemma_scan_keeps(
    w: World,
    found: Found,
    scan: Gen,
    alt: Alt,
    fact: Fact,
    symbol: Symbol,
)
    requires
        (found.sense)(symbol) is Some,
        scan.row != Some(symbol),
    ensures
        (reading::with_fact(w, found, scan, alt, fact).sense)(symbol) == (found.sense)(symbol),
{
    let taken = reading::bindings(w, found.sense, scan);
    lemma_place_of(taken, symbol);
    if let Some(place) = reading::place_of(taken, symbol) {
        let j = choose|j: int| 0 <= j < taken.len() && taken[j] == (symbol, place);
        typing::lemma_shared_fresh(
            w,
            found.sense,
            scan.alternatives@,
            scan.alternatives@.len(),
            j,
        );
    }
}

/// Every constraint that was applied still holds, one fact on.
pub proof fn lemma_scan_obeys(
    w: World,
    types: Kinds,
    st: St,
    next: St,
    found: Found,
    scan: Gen,
    i: int,
    fact: Fact,
)
    requires
        w.cx.ast.wf(),
        0 <= i < scan.alternatives@.len(),
        w.cx.ast.has(scan.alternatives@[i].key),
        reading::matches(w, found.sense, scan.alternatives@[i], fact),
        even(w, found.sense, scan.alternatives@, scan.alternatives@.len()),
        fitted(w, types, scan.alternatives@, scan.row),
        taking::distinct(reading::bindings(w, found.sense, scan)),
        obeyed(w, st, found.sense),
        scan.row matches Some(symbol) ==> model::patterns_of(w.constraints, symbol).len() == 0,
        st.constraints == w.constraints,
        st.constrained.len() <= next.constrained.len(),
        next.constrained.take(st.constrained.len() as int) == st.constrained,
        forall|j: int|
            st.constrained.len() <= j < next.constrained.len() ==> taking::takes_field(
                reading::bindings(w, found.sense, scan),
                #[trigger] next.constrained[j],
            ) && model::patterns_of(st.constraints, next.constrained[j]).len() > 0,
    ensures
        obeyed(
            w,
            next,
            reading::with_fact(w, found, scan, scan.alternatives@[i], fact).sense,
        ),
{
    let alt = scan.alternatives@[i];
    let after = reading::with_fact(w, found, scan, alt, fact).sense;
    assert forall|j: int| 0 <= j < next.constrained.len() implies obeys(
        w,
        after,
        #[trigger] next.constrained[j],
    ) && model::patterns_of(w.constraints, next.constrained[j]).len() > 0 by {
        let symbol = next.constrained[j];
        if j < st.constrained.len() {
            assert(next.constrained.take(st.constrained.len() as int)[j] == st.constrained[j]);
            assert(obeys(w, found.sense, st.constrained[j]));
            lemma_scan_keeps(w, found, scan, alt, fact, symbol);
        } else {
            lemma_taken_obeys(w, types, found, scan, i, fact, symbol);
        }
    }
}

} // verus!
