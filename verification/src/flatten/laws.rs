//! The law flattening is for: a compiled query answers what the query means.
use vstd::prelude::*;

use super::answering;
use super::answering::Job;
use super::collect;
use super::collecting;
use super::emitting;
use super::emitting::{Built, Compiled};
use super::filtering::Row;
use super::finishing;
use super::gathering;
use super::heads;
use super::matching;
use super::model;
use super::scope;
use super::model::{Compare, Cx, Slot, St, Stmt};
use super::running;
use super::standing;
use crate::answers;
use crate::diag::Report;
use crate::error::ApertureError;
use crate::flatten;
use crate::iter;
use crate::iter::Address;
use crate::layout;
use crate::machine;
use crate::plan::{Fact, FactStore, FieldPath, Projection};
use crate::program::Step;
use crate::reading;
use crate::reading::typing;
use crate::reading::{Found, Thing, World};
use crate::reorder;
use crate::schema::{Names, PredicateId, PredicateTy, Symbol};
use crate::syntax::{ExprKind, NodeId};
use crate::tuple;
use crate::tuple::Datum;

verus! {

// ---- the head ---------------------------------------------------------------

/// Two states that name the same places.
pub open spec fn alike(a: St, b: St) -> bool {
    &&& a.bindings == b.bindings
    &&& a.hoisted == b.hoisted
    &&& a.fetched == b.fetched
    &&& a.names == b.names
}

/// An expression resolves to the same place in both, and is reported in both or in
/// neither.
pub proof fn lemma_resolve_alike(cx: Cx, a: St, b: St, node: NodeId)
    requires
        alike(a, b),
    ensures
        model::resolve(cx, a, node).1 == model::resolve(cx, b, node).1,
        alike(model::resolve(cx, a, node).0, model::resolve(cx, b, node).0),
        alike(a, model::resolve(cx, a, node).0),
        model::resolve(cx, a, node).0.reports.len() - a.reports.len() == model::resolve(
            cx,
            b,
            node,
        ).0.reports.len() - b.reports.len(),
        a.sealed && b.sealed ==> model::resolve(cx, a, node).0.sealed == model::resolve(
            cx,
            b,
            node,
        ).0.sealed,
    decreases node.0,
{
    matching::lemma_resolve_only(cx, a, node);
    matching::lemma_resolve_only(cx, b, node);
    if !cx.ast.constant(node) {
        if let ExprKind::Access(field, base) = cx.ast.kind(node) {
            if base.0 < node.0 {
                lemma_resolve_alike(cx, a, b, base);
            }
        }
    }
}

/// Reports are only added.
pub proof fn lemma_projected_grow(cx: Cx, st: St, node: NodeId)
    ensures
        scope::further(st, emitting::projected(cx, st, node).0),
    decreases model::rank(cx, node), node.0, 1nat, 0nat,
{
    match cx.ast.kind(node) {
        ExprKind::Lit(_) => {},
        ExprKind::Record(fields) => lemma_projected_fields_grow(
            cx,
            st,
            node,
            fields@,
            fields@.len(),
        ),
        kind => if kind is Var || kind is Access || kind is Fact {
            matching::lemma_resolve_only(cx, st, node);
            let (s1, found) = model::resolve(cx, st, node);
            if let Some(Slot::Const(folded)) = found {
                if cx.ast.constant(folded) {
                    lemma_projected_grow(cx, s1, folded);
                }
            }
        },
    }
}

proof fn lemma_projected_fields_grow(
    cx: Cx,
    st: St,
    node: NodeId,
    fields: Seq<(Symbol, NodeId)>,
    k: nat,
)
    ensures
        scope::further(st, emitting::projected_fields(cx, st, node, fields, k).0),
    decreases model::rank(cx, node), node.0, 0nat, k,
{
    if k > 0 {
        lemma_projected_fields_grow(cx, st, node, fields, (k - 1) as nat);
        let (s1, before) = emitting::projected_fields(cx, st, node, fields, (k - 1) as nat);
        if before is Some && model::below(cx, node, fields[k - 1].1) {
            lemma_projected_grow(cx, s1, fields[k - 1].1);
        }
    }
}

/// A projection says what a reading has, or fails where it has nothing.
pub open spec fn says(found: Result<Datum, ApertureError>, meant: Option<Datum>) -> bool {
    match meant {
        Some(d) => found == Ok::<Datum, ApertureError>(d),
        None => found is Err,
    }
}

/// What a field of a row decodes to is what it holds.
proof fn lemma_field_said<S: FactStore>(
    w: World,
    store: S,
    row: Row,
    address: Address,
    path: FieldPath,
    ty: PredicateTy,
)
    requires
        matching::sound_slot(w.cx, w.names, row, Slot::Field { address, path, ty }),
    ensures
        says(
            iter::projected(
                store,
                w.names,
                row,
                Projection::RegisterField { address, path, ty },
            ),
            reading::thing_value(w, matching::thing_in(row, Slot::Field { address, path, ty })),
        ),
{
    let fact = matching::fact_in(row, address);
    assert(matching::leads(w.names, fact, path@, ty));
    let thing = matching::thing_in(row, Slot::Field { address, path, ty });
    assert(thing == Thing::Field { fact, path: path@, ty });
    assert(reading::field_value(w, fact, path@, ty) is Some);
    let d = reading::field_value(w, fact, path@, ty)->0;
    assert(layout::holds_at(fact.key(), path@, d) && tuple::fits(w.names, d, ty));
    lemma_decoded(w, d, ty);
    assert(tuple::path_bytes(fact.key(), path@) == Ok::<Seq<u8>, ApertureError>(tuple::enc(d)));
}

proof fn lemma_decoded(w: World, d: Datum, ty: PredicateTy)
    requires
        tuple::fits(w.names, d, ty),
    ensures
        iter::read_value(w.names, tuple::enc(d), ty) == Ok::<Datum, ApertureError>(d),
{
    let nothing = Seq::<u8>::empty();
    assert(nothing + tuple::enc(d) + nothing =~= tuple::enc(d));
    tuple::law_decoding_gives_back_what_was_encoded(w.names, nothing, d, nothing, ty);
}

/// A whole key, projected field by field, is what it holds.
proof fn lemma_key_said<S: FactStore>(
    w: World,
    store: S,
    row: Row,
    address: Address,
    ty: PredicateTy,
)
    requires
        matching::sound_slot(w.cx, w.names, row, Slot::Key { address, ty }),
        ty is Record,
        emitting::key_record_sealed(ty),
    ensures
        says(
            iter::projected(
                store,
                w.names,
                row,
                Projection::Record(emitting::key_record(address, ty->Record_0@)),
            ),
            reading::thing_value(w, matching::thing_in(row, Slot::Key { address, ty })),
        ),
{
    let fact = matching::fact_in(row, address);
    let thing = matching::thing_in(row, Slot::Key { address, ty });
    assert(thing == Thing::Key { fact, ty });
    assert(matching::keyed(w.names, fact, ty));
    assert(reading::key_value(w, fact, ty) is Some);
    let v = reading::key_value(w, fact, ty)->0;
    assert(layout::key_is(w.names, fact.key(), ty, v));
    let tys = ty->Record_0;
    lemma_key_fields_said(w, store, row, address, ty, v, tys@.len());
    assert(v->Record_0.take(tys@.len() as int) =~= v->Record_0);
}

proof fn lemma_key_fields_said<S: FactStore>(
    w: World,
    store: S,
    row: Row,
    address: Address,
    ty: PredicateTy,
    v: Datum,
    k: nat,
)
    requires
        machine::held(row, address) is Ok,
        layout::key_is(w.names, matching::fact_in(row, address).key(), ty, v),
        ty is Record,
        k <= ty->Record_0@.len(),
        emitting::key_record_sealed(ty),
    ensures
        ({
            let all = emitting::key_record(address, ty->Record_0@);
            iter::projected_fields(store, w.names, row, all, k, Projection::Record(all)) == Ok::<
                Seq<(Seq<char>, Datum)>,
                ApertureError,
            >(v->Record_0.take(k as int))
        }),
    decreases k,
{
    let tys = ty->Record_0;
    let all = emitting::key_record(address, tys@);
    let whole = Projection::Record(all);
    if k == 0 {
        assert(v->Record_0.take(0) =~= Seq::empty());
    } else {
        let j = (k - 1) as nat;
        lemma_key_fields_said(w, store, row, address, ty, v, j);
        let fact = matching::fact_in(row, address);
        let none = Seq::<usize>::empty();
        assert(tys.len() == tys@.len());
        let path = FieldPath::of(j as usize, none);
        assert(FieldPath::sealed(j as int as usize, none));
        FieldPath::lemma_of(j as usize, none);
        layout::lemma_top(fact.key(), v, path@);
        let d = v->Record_0[j as int].1;
        assert(tuple::fits(w.names, d, tys@[j as int].1));
        lemma_decoded(w, d, tys@[j as int].1);
        let one = all[k - 1];
        assert(one == (
            Symbol::Schema(tys@[j as int].0),
            Projection::RegisterField { address, path, ty: tys@[j as int].1 },
        ));
        assert(w.names.text(one.0) == Some(v->Record_0[j as int].0));
        assert(decreases_to!(whole => whole->Record_0));
        assert(whole->Record_0 == all);
        assert(decreases_to!(all => all[k - 1]));
        assert(decreases_to!(all[k - 1] => all[k - 1].1));
        assert(iter::projected(store, w.names, row, one.1) == Ok::<Datum, ApertureError>(d));
        assert(v->Record_0.take(k as int) =~= v->Record_0.take(j as int).push(
            v->Record_0[j as int],
        ));
    }
}

/// What a head is projected from.
pub open spec fn projecting<S: FactStore>(job: Job, store: S, row: Row, st: St) -> bool {
    let (last, built) = job.done();
    &&& running::ground(job.w)
    &&& running::reads(job.w, store)
    &&& matching::linked(job.w, job.w.cx, last)
    &&& running::told(job.w.cx, last, running::kinds_of(built.steps))
    &&& running::fits(job.w.cx, job.w, last, running::kinds_of(built.steps), row)
    &&& alike(st, last)
    &&& last.sealed
}

/// The head's projection says what the head means.
#[verifier::rlimit(40)]
proof fn lemma_said<S: FactStore>(job: Job, store: S, row: Row, st: St, node: NodeId)
    requires
        projecting(job, store, row, st),
        emitting::projected(job.w.cx, st, node).1 is Some,
        scope::clean(st, emitting::projected(job.w.cx, st, node).0),
    ensures
        says(
            iter::projected(
                store,
                job.w.names,
                row,
                emitting::projected(job.w.cx, st, node).1->0,
            ),
            reading::value(
                job.w,
                matching::sense_of(job.done().0.bindings, row),
                node,
            ),
        ),
        alike(st, emitting::projected(job.w.cx, st, node).0),
    decreases model::rank(job.w.cx, node), node.0, 1nat, 0nat,
{
    let w = job.w;
    let (last, built) = job.done();
    let kinds = running::kinds_of(built.steps);
    let sense = matching::sense_of(last.bindings, row);
    match w.cx.ast.kind(node) {
        ExprKind::Lit(_) => {},
        ExprKind::Record(fields) => {
            let (after, found) = emitting::projected_fields(
                w.cx,
                st,
                node,
                fields@,
                fields@.len(),
            );
            let all = found->0;
            lemma_projected_len(w.cx, st, node, fields@, fields@.len());
            assert(all.take(fields@.len() as int) =~= all);
            lemma_said_fields(job, store, row, st, node, fields@, fields@.len(), all);
        },
        kind => {
            lemma_resolve_alike(w.cx, st, last, node);
            matching::lemma_resolve_only(w.cx, st, node);
            let (s1, found) = model::resolve(w.cx, st, node);
            if let Some(Slot::Const(folded)) = found {
                if w.cx.ast.constant(folded) {
                    lemma_projected_grow(w.cx, s1, folded);
                }
            }
            running::lemma_resolved(w.cx, w, last, kinds, row, node);
            running::lemma_resolve_typed(w.cx, last, kinds, node);
            let slot = found->0;
            running::lemma_slot_sound(w.cx, w, last, kinds, row, slot);
            match slot {
                Slot::Row { address, .. } => {},
                Slot::Key { address, ty } => {
                    lemma_key_said(w, store, row, address, ty);
                },
                Slot::Field { address, path, ty } => {
                    lemma_field_said(w, store, row, address, path, ty);
                },
                Slot::Value { address, ty } => {
                    running::lemma_filled(w.cx, w, last, kinds, row, address);
                    let fact = matching::fact_in(row, address);
                    assert(store.entity(fact.id) is Some || store.entity(fact.id) is None);
                },
                Slot::Const(folded) => {
                    assert(!w.cx.ast.constant(node));
                    lemma_said(job, store, row, s1, folded);
                },
            }
        },
    }
}

proof fn lemma_projected_len(
    cx: Cx,
    st: St,
    node: NodeId,
    fields: Seq<(Symbol, NodeId)>,
    k: nat,
)
    ensures
        emitting::projected_fields(cx, st, node, fields, k).1 matches Some(inner) ==> inner.len()
            == k,
    decreases k,
{
    if k > 0 {
        lemma_projected_len(cx, st, node, fields, (k - 1) as nat);
    }
}

proof fn lemma_said_fields<S: FactStore>(
    job: Job,
    store: S,
    row: Row,
    st: St,
    node: NodeId,
    fields: Seq<(Symbol, NodeId)>,
    k: nat,
    all: Seq<(Symbol, Projection)>,
)
    requires
        projecting(job, store, row, st),
        k <= all.len(),
        emitting::projected_fields(job.w.cx, st, node, fields, k).1 == Some(all.take(k as int)),
        scope::clean(st, emitting::projected_fields(job.w.cx, st, node, fields, k).0),
    ensures
        match reading::value_fields(
            job.w,
            matching::sense_of(job.done().0.bindings, row),
            node,
            fields,
            k,
        ) {
            Some(found) => iter::projected_fields(
                store,
                job.w.names,
                row,
                all,
                k,
                Projection::Record(all),
            ) == Ok::<Seq<(Seq<char>, Datum)>, ApertureError>(found),
            None => iter::projected_fields(
                store,
                job.w.names,
                row,
                all,
                k,
                Projection::Record(all),
            ) is Err,
        },
        alike(st, emitting::projected_fields(job.w.cx, st, node, fields, k).0),
    decreases model::rank(job.w.cx, node), node.0, 0nat, k,
{
    let w = job.w;
    if k > 0 {
        let j = (k - 1) as nat;
        let (s1, before) = emitting::projected_fields(w.cx, st, node, fields, j);
        let piece = fields[k - 1].1;
        assert(before is Some);
        assert(model::below(w.cx, node, piece));
        lemma_projected_len(w.cx, st, node, fields, j);
        let (s2, found) = emitting::projected(w.cx, s1, piece);
        assert(before->0.push((fields[k - 1].0, found->0)) == all.take(k as int));
        assert(all.take(j as int) =~= all.take(k as int).drop_last());
        assert(before->0 =~= all.take(j as int));
        assert(all.take(k as int)[k - 1] == all[k - 1]);
        lemma_projected_fields_grow(w.cx, st, node, fields, j);
        lemma_projected_grow(w.cx, s1, piece);
        lemma_said_fields(job, store, row, st, node, fields, j, all);
        lemma_said(job, store, row, s1, piece);
        let whole = Projection::Record(all);
        assert(decreases_to!(whole => whole->Record_0));
        assert(whole->Record_0 == all);
        assert(decreases_to!(all => all[k - 1]));
        assert(decreases_to!(all[k - 1] => all[k - 1].1));
    }
}

// ---- all of it --------------------------------------------------------------

/// A job is what collecting a query comes to, in an order: the one given, or the one
/// chosen. It is read with the rows and the constraints that were collected.
pub open spec fn is_job_of(
    job: Job,
    names: Names,
    reports: Seq<Report>,
    given: Option<Seq<usize>>,
) -> bool {
    let (st, found) = collecting::collected(job.w.cx, flatten::beginning(names, reports));
    found matches Some(gathered) && {
        &&& job.stmts == gathered.stmts
        &&& job.order == (match given {
            Some(order) => order,
            None => reorder::chosen_order(gathered.deps),
        })
        &&& job.st == emitting::safety(job.w.cx, st, gathered, job.order).st
        &&& matching::linked(job.w, job.w.cx, job.st)
    }
}

/// A job that was emitted reported nothing on the way.
pub proof fn lemma_clean(job: Job)
    requires
        ({
            let (after, compiled) = emitting::emitted(job.w.cx, job.st, job.stmts, job.order);
            compiled is Some && after.sealed
        }),
    ensures
        job.st.sealed,
        job.at(job.order.len()).1 is Some,
        scope::clean(job.st, job.done().0),
        ({
            let (last, built) = job.done();
            let (s4, b4) = emitting::before_the_head(
                job.w.cx,
                job.at(job.order.len()).0,
                job.at(job.order.len()).1->0,
            );
            &&& scope::clean(job.st, s4)
            &&& scope::clean(job.st, emitting::projected(job.w.cx, s4, job.w.cx.ast.root().head).0)
            &&& built.levels <= b4.levels
        }),
{
    let cx = job.w.cx;
    let head = cx.ast.root().head;
    let (s1, found) = job.at(job.order.len());
    let b1 = found->0;
    job.lemma_since(job.order.len());
    running::lemma_fetch_more(cx, s1, b1, head);
    let (s2, b2) = job.done();
    let st = St { compares: Seq::empty(), ..s2 };
    finishing::lemma_compared_grow(cx, st, b2, s2.compares, s2.compares.len());
    let (s3, b3) = emitting::compared_all(cx, st, b2, s2.compares, s2.compares.len());
    let bare = St { constraints: Seq::empty(), ..s3 };
    finishing::lemma_constrained_grow(cx, bare, b3, s3.constraints, 0, s3.constraints.len());
    let (s4, b4) = emitting::before_the_head(cx, s1, b1);
    lemma_projected_grow(cx, s4, head);
    lemma_compared_levels(cx, st, b2, s2.compares, s2.compares.len());
}

proof fn lemma_ready(job: Job)
    requires
        job.fair(),
        ({
            let (after, compiled) = emitting::emitted(job.w.cx, job.st, job.stmts, job.order);
            compiled is Some && compiled->0.nvars <= usize::MAX && after.sealed
        }),
    ensures
        job.ready(),
{
    lemma_clean(job);
}

proof fn lemma_compared_levels(
    cx: Cx,
    st: St,
    built: Built,
    compares: Seq<Compare>,
    k: nat,
)
    ensures
        emitting::compared_all(cx, st, built, compares, k).1.levels == built.levels,
    decreases k,
{
    if k > 0 {
        lemma_compared_levels(cx, st, built, compares, (k - 1) as nat);
    }
}

/// A constraint on a variable is one of the constraints.
proof fn lemma_constrained(constraints: Seq<(Symbol, NodeId)>, symbol: Symbol)
    ensures
        model::patterns_of(constraints, symbol).len() > 0 ==> exists|i: int|
            0 <= i < constraints.len() && (#[trigger] constraints[i]).0 == symbol,
    decreases constraints.len(),
{
    if constraints.len() > 0 {
        let shorter = constraints.drop_last();
        lemma_constrained(shorter, symbol);
        assert(constraints[constraints.len() - 1] == constraints.last());
        if model::patterns_of(shorter, symbol).len() > 0 {
            let i = choose|i: int| 0 <= i < shorter.len() && (#[trigger] shorter[i]).0 == symbol;
            assert(constraints[i].0 == symbol);
        }
    }
}

/// A query that flattens, each of whose variables has one type, is fair: only constants are
/// bound to begin with, and whatever a statement of the order reads is bound by then.
#[verifier::rlimit(30)]
pub proof fn lemma_fair(
    job: Job,
    names: Names,
    reports: Seq<Report>,
    given: Option<Seq<usize>>,
)
    requires
        is_job_of(job, names, reports, given),
        flatten::outcome(job.w.cx.ast, job.w.cx.schema, names, reports, given).1 is Some,
        flatten::outcome(job.w.cx.ast, job.w.cx.schema, names, reports, given).0.sealed,
        job.w.cx.ast.wf(),
        typing::typed(job.w, job.kinds, job.st.bindings, job.stmts),
        running::peopled(job.w.cx, job.w.names),
        running::closed(job.w),
    ensures
        job.fair(),
{
    let w = job.w;
    let cx = w.cx;
    assert(Cx { ast: cx.ast, schema: cx.schema } == cx);
    let begun = flatten::beginning(names, reports);
    let (s1, found) = collecting::collected(cx, begun);
    let gathered = found->0;
    scope::lemma_collected_gathers(cx, begun);
    scope::lemma_safety(cx, s1, gathered, job.order);
    assert(job.st == s1);
    lemma_clean(job);
    scope::law_an_order_is_safe_iff_it_binds_before_it_reads(cx, s1, gathered, job.order);
    assert(gathering::fine(cx, begun));
    gathering::lemma_collected(cx, begun);
    let (from, claims, scanned) = heads::lemma_collected(cx, begun);
    let none = Seq::<Seq<PredicateId>>::empty();
    assert(running::told(cx, s1, none)) by {
        assert forall|i: int| 0 <= i < s1.bindings.len() implies running::typed_slot(
            cx,
            s1.names,
            none,
            (#[trigger] s1.bindings[i]).1,
        ) by {
            assert(gathering::constant_slot(cx, s1.bindings[i].1));
        }
        assert forall|i: int| 0 <= i < s1.compares.len() implies running::typed_slot(
            cx,
            s1.names,
            none,
            (#[trigger] s1.compares[i]).left,
        ) && running::typed_slot(cx, s1.names, none, s1.compares[i].right) by {
            assert(gathering::constant_slot(cx, s1.compares[i].left));
        }
    }
    assert(standing::kinded(job.kinds, s1.bindings)) by {
        assert forall|i: int| 0 <= i < s1.bindings.len() implies standing::slot_fits(
            (#[trigger] s1.bindings[i]).1,
            (job.kinds)(s1.bindings[i].0),
        ) by {
            assert(gathering::constant_slot(cx, s1.bindings[i].1));
        }
    }
    assert forall|j: int| 0 <= j < job.order.len() implies (#[trigger] job.order[j])
        < job.stmts.len() by {}
    assert(standing::emitting_from(w, job.kinds, s1, from, claims, gathered, job.order));
    assert forall|k: nat| k < job.order.len() implies job.order[k as int] < job.stmts.len()
        && running::proper(w, job.kinds, #[trigger] job.stmt(k)) && (job.stmt(k) matches
        Stmt::Negate(tested) ==> answering::dead(job.stmts, job.order, k) || running::all_bound(
        w,
        job.at(k).0.bindings,
        tested.alternatives@,
    )) by {
        let at = job.order[k as int] as int;
        assert(job.order[k as int] < job.stmts.len());
        let stmt = job.stmts[at];
        assert(collect::stmt_ok(cx, stmt));
        assert(typing::typed_stmt(w, job.kinds, job.stmts, stmt));
        match stmt {
            Stmt::Scan(scan) => {
                let alts = scan.alternatives@;
                assert forall|i: int| 0 <= i < alts.len() implies typing::fitting(
                    job.kinds,
                    typing::occurring(w, #[trigger] alts[i]),
                ) by {
                    assert(typing::typed_alt(w, job.kinds, alts[i]));
                }
                if let Some(row) = scan.row {
                    if alts.len() > 0 {
                        assert(typing::typed_alt(w, job.kinds, alts[0]));
                        lemma_constrained(w.constraints, row);
                    }
                }
            },
            Stmt::Negate(tested) => {
                if !answering::dead(job.stmts, job.order, k) {
                    job.lemma_before(k);
                    job.lemma_since(k);
                    standing::lemma_negation(
                        w,
                        job.kinds,
                        s1,
                        from,
                        claims,
                        gathered,
                        job.order,
                        k,
                        tested,
                    );
                }
            },
            _ => {},
        }
    }
}

/// A row and the way it reads.
pub open spec fn reads_as(job: Job, row: Row, way: Found) -> bool {
    &&& running::found_in(job.done().0, row) == way
    &&& finishing::known(job, row)
}

/// Rows and the ways they read, told apart alike.
proof fn lemma_kept_alike(
    job: Job,
    rows: Seq<Row>,
    ways: Seq<Found>,
    p: spec_fn(Row) -> bool,
    q: spec_fn(Found) -> bool,
)
    requires
        rows.len() == ways.len(),
        forall|i: int|
            0 <= i < rows.len() ==> reads_as(job, #[trigger] rows[i], ways[i]) && p(rows[i]) == q(
                ways[i],
            ),
    ensures
        rows.filter(p).len() == ways.filter(q).len(),
        forall|i: int|
            0 <= i < rows.filter(p).len() ==> reads_as(
                job,
                #[trigger] rows.filter(p)[i],
                ways.filter(q)[i],
            ),
    decreases rows.len(),
{
    reveal(Seq::filter);
    if rows.len() > 0 {
        let (fewer, others) = (rows.drop_last(), ways.drop_last());
        assert forall|i: int| 0 <= i < fewer.len() implies reads_as(
            job,
            #[trigger] fewer[i],
            others[i],
        ) && p(fewer[i]) == q(others[i]) by {
            assert(fewer[i] == rows[i]);
            assert(others[i] == ways[i]);
        }
        lemma_kept_alike(job, fewer, others, p, q);
        assert(reads_as(job, rows[rows.len() - 1], ways[ways.len() - 1]));
    }
}

/// What is kept is what the filters let through.
proof fn lemma_kept(job: Job, row: Row, way: Found)
    requires
        reads_as(job, row, way),
    ensures
        reading::kept(job.w, way) == (finishing::agreeing(
            job.done().0.compares,
            job.done().0.compares.len(),
        )(row) && finishing::satisfying(
            job.w,
            job.done().0,
            job.w.constraints.len(),
        )(row)),
{
    let last = job.done().0;
    let pairs = way.pairs;
    assert(pairs.len() == last.compares.len());
    assert forall|i: int| 0 <= i < pairs.len() implies (#[trigger] pairs[i]) == (
        matching::thing_in(row, last.compares[i].left),
        matching::thing_in(row, last.compares[i].right),
    ) by {}
    if finishing::agreeing(last.compares, last.compares.len())(row) {
        assert forall|i: int| 0 <= i < pairs.len() implies reading::same(
            (#[trigger] pairs[i]).0,
            pairs[i].1,
        ) by {
            assert(reading::same(
                matching::thing_in(row, last.compares[i].left),
                matching::thing_in(row, last.compares[i].right),
            ));
        }
    }
    if reading::kept(job.w, way) {
        assert forall|i: int| 0 <= i < last.compares.len() implies reading::same(
            matching::thing_in(row, (#[trigger] last.compares[i]).left),
            matching::thing_in(row, last.compares[i].right),
        ) by {
            assert(reading::same(pairs[i].0, pairs[i].1));
        }
    }
}

/// The rows a finished body answers, and the ways they read.
#[verifier::rlimit(30)]
proof fn lemma_answered<S: FactStore>(job: Job, store: S)
    requires
        job.fair(),
        running::reads(job.w, store),
        matching::well_typed(job.w.cx, job.w.names, store),
        ({
            let (after, compiled) = emitting::emitted(job.w.cx, job.st, job.stmts, job.order);
            compiled is Some && compiled->0.nvars <= usize::MAX && after.sealed
        }),
    ensures
        ({
            let compiled = emitting::emitted(job.w.cx, job.st, job.stmts, job.order).1->0;
            let env = machine::unbound(compiled.nvars);
            let found = answers::answers(store, compiled.body, env, 0);
            let meant = reading::meant(
                job.w,
                job.stmts,
                job.order,
                running::found_in(job.st, env),
            );
            &&& found.error is None
            &&& found.rows.len() == meant.len()
            &&& forall|i: int|
                0 <= i < meant.len() ==> reads_as(job, #[trigger] found.rows[i], meant[i])
        }),
{
    lemma_clean(job);
    lemma_ready(job);
    let w = job.w;
    let cx = w.cx;
    let compiled = emitting::emitted(cx, job.st, job.stmts, job.order).1->0;
    let nvars = compiled.nvars;
    let env = machine::unbound(nvars);
    let (s1, after) = job.at(job.order.len());
    let (last, built) = job.done();
    job.lemma_at(0);
    job.lemma_to_the_end(0);
    job.lemma_to_the_end(job.order.len());
    let (s4, b4) = emitting::before_the_head(cx, s1, after->0);
    assert(running::kinds_of(Seq::<Step>::empty()) =~= Seq::empty());
    assert(answering::running_at(job, store, 0, env));
    answering::lemma_rows(job, store, 0, env);
    let ways = reading::ways(w, job.stmts, job.order, 0, running::found_in(job.st, env));
    let rows = finishing::rows_of(job, store, nvars);
    assert forall|i: int| 0 <= i < rows.len() implies finishing::known(job, #[trigger] rows[i])
        && running::obeyed(w, last, matching::sense_of(last.bindings, rows[i])) by {
        assert(running::found_in(last, rows[i]) == ways[i]);
    }
    let compares = last.compares;
    let (k, m) = (compares.len(), w.constraints.len());
    let all = |row: Row| true;
    lemma_filter_all(rows);
    assert(running::kinds_of(built.steps).take(running::kinds_of(built.steps).len() as int)
        =~= running::kinds_of(built.steps));
    assert(finishing::sifted(job, store, nvars, built, all));
    let st = St { compares: Seq::empty(), ..last };
    finishing::lemma_compared_grow(cx, st, built, compares, k);
    let (s3, b3) = emitting::compared_all(cx, st, built, compares, k);
    let bare = St { constraints: Seq::empty(), ..s3 };
    finishing::lemma_constrained_grow(cx, bare, b3, s3.constraints, 0, s3.constraints.len());
    finishing::lemma_compared_all(job, store, nvars, st, k);
    finishing::lemma_constrained_all(
        job,
        store,
        nvars,
        bare,
        b3,
        finishing::agreeing(compares, k),
        m,
    );
    let p = |row: Row|
        finishing::agreeing(compares, k)(row) && finishing::satisfying(w, last, m)(row);
    let q = |way: Found| reading::kept(w, way);
    assert forall|i: int| 0 <= i < rows.len() implies reads_as(job, #[trigger] rows[i], ways[i])
        && p(rows[i]) == q(ways[i]) by {
        assert(running::found_in(last, rows[i]) == ways[i]);
        lemma_kept(job, rows[i], ways[i]);
    }
    lemma_kept_alike(job, rows, ways, p, q);
    assert(compiled.body == b4.steps);
}

proof fn lemma_filter_all(s: Seq<Row>)
    ensures
        s.filter(|row: Row| true) == s,
    decreases s.len(),
{
    reveal(Seq::filter);
    if s.len() > 0 {
        lemma_filter_all(s.drop_last());
        assert(s.drop_last().push(s.last()) =~= s);
    }
}

/// A compiled query answers what the query means: read as nested loops over the facts, one
/// statement inside another in the order of the loops, and kept where every two things one
/// variable was given for are the same and every constraint holds. It answers as many rows,
/// in the same order, and row by row its head says what the head means. Nothing fails, but
/// for a value side whose bytes are of another type. Each variable has one type, and the
/// facts of the store are of the types their predicates declare, with references that lead
/// to facts.
pub proof fn law_a_compiled_query_answers_what_it_means<S: FactStore>(
    job: Job,
    store: S,
    names: Names,
    reports: Seq<Report>,
    given: Option<Seq<usize>>,
    compiled: Compiled,
)
    requires
        is_job_of(job, names, reports, given),
        flatten::outcome(job.w.cx.ast, job.w.cx.schema, names, reports, given).1 == Some(compiled),
        flatten::outcome(job.w.cx.ast, job.w.cx.schema, names, reports, given).0.sealed,
        compiled.nvars <= usize::MAX,
        job.w.cx.ast.wf(),
        typing::typed(job.w, job.kinds, job.st.bindings, job.stmts),
        running::peopled(job.w.cx, job.w.names),
        running::closed(job.w),
        running::reads(job.w, store),
        matching::well_typed(job.w.cx, job.w.names, store),
    ensures
        ({
            let env = machine::unbound(compiled.nvars);
            let found = answers::answers(store, compiled.body, env, 0);
            let meant = reading::meant(
                job.w,
                job.stmts,
                job.order,
                running::found_in(job.st, env),
            );
            &&& found.error is None
            &&& found.rows.len() == meant.len()
            &&& forall|i: int|
                0 <= i < meant.len() ==> says(
                    iter::projected(
                        store,
                        job.w.names,
                        #[trigger] found.rows[i],
                        compiled.head,
                    ),
                    reading::value(job.w, meant[i].sense, job.w.cx.ast.root().head),
                )
        }),
{
    let cx = job.w.cx;
    assert(Cx { ast: cx.ast, schema: cx.schema } == cx);
    assert(emitting::emitted(cx, job.st, job.stmts, job.order).1 == Some(compiled));
    assert(emitting::emitted(cx, job.st, job.stmts, job.order).0.sealed);
    lemma_fair(job, names, reports, given);
    lemma_clean(job);
    lemma_ready(job);
    lemma_answered(job, store);
    let env = machine::unbound(compiled.nvars);
    let found = answers::answers(store, compiled.body, env, 0);
    let meant = reading::meant(job.w, job.stmts, job.order, running::found_in(job.st, env));
    let head = cx.ast.root().head;
    let (last, built) = job.done();
    job.lemma_to_the_end(job.order.len());
    let (s1, after) = job.at(job.order.len());
    let (s4, b4) = emitting::before_the_head(cx, s1, after->0);
    lemma_places_stay(job);
    assert forall|i: int| 0 <= i < meant.len() implies says(
        iter::projected(store, job.w.names, #[trigger] found.rows[i], compiled.head),
        reading::value(job.w, meant[i].sense, head),
    ) by {
        assert(reads_as(job, found.rows[i], meant[i]));
        lemma_said(job, store, found.rows[i], s4, head);
    }
}

/// What is added once every level exists moves no place.
proof fn lemma_places_stay(job: Job)
    requires
        job.ready(),
    ensures
        alike(
            emitting::before_the_head(
                job.w.cx,
                job.at(job.order.len()).0,
                job.at(job.order.len()).1->0,
            ).0,
            job.done().0,
        ),
{
    let cx = job.w.cx;
    let (s2, b2) = job.done();
    let st = St { compares: Seq::empty(), ..s2 };
    lemma_compared_alike(cx, st, b2, s2.compares, s2.compares.len());
    let (s3, b3) = emitting::compared_all(cx, st, b2, s2.compares, s2.compares.len());
    let bare = St { constraints: Seq::empty(), ..s3 };
    lemma_constrained_alike(cx, bare, b3, s3.constraints, s3.constraints.len());
}

pub proof fn lemma_compared_alike(
    cx: Cx,
    st: St,
    built: Built,
    compares: Seq<Compare>,
    k: nat,
)
    ensures
        alike(emitting::compared_all(cx, st, built, compares, k).0, st),
    decreases k,
{
    if k > 0 {
        lemma_compared_alike(cx, st, built, compares, (k - 1) as nat);
    }
}

pub proof fn lemma_constrained_alike(
    cx: Cx,
    st: St,
    built: Built,
    constraints: Seq<(Symbol, NodeId)>,
    k: nat,
)
    ensures
        alike(emitting::constrained_all(cx, st, built, constraints, k).0, st),
    decreases k,
{
    if k > 0 {
        lemma_constrained_alike(cx, st, built, constraints, (k - 1) as nat);
    }
}

} // verus!
