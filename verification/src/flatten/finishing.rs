//! What is added once every level exists: the filters for two places that have to be the
//! same, and for constraints no capture applied.
use vstd::prelude::*;

use super::answering::Job;
use super::emitting;
use super::emitting::Built;
use super::filtering;
use super::filtering::{Change, Row};
use super::matching;
use super::model;
use super::scope;
use super::model::{Compare, Cx, Slot, St};
use super::running;
use crate::answers;
use crate::boxed;
use crate::bytes;
use crate::error::ApertureError;
use crate::iter::Address;
use crate::layout;
use crate::machine;
use crate::plan::{Fact, FactStore, FieldPath, Residual, ResidualOp};
use crate::program;
use crate::program::{Level, Source, Step};
use crate::reading;
use crate::reading::{Sense, Thing, World};
use crate::schema::{Names, PredicateId, PredicateTy, Symbol};
use crate::syntax::{ExprKind, Literal, NodeId};
use crate::tuple;
use crate::tuple::Datum;

verus! {

// ---- bodies with filters ----------------------------------------------------

/// The rows of the body before anything is added to it.
pub open spec fn rows_of<S: FactStore>(job: Job, store: S, nvars: nat) -> Seq<Row> {
    answers::answers(store, job.done().1.steps, machine::unbound(nvars), 0).rows
}

/// A body that filters were added to: it answers the rows that pass them.
pub open spec fn sifted<S: FactStore>(
    job: Job,
    store: S,
    nvars: nat,
    b: Built,
    p: spec_fn(Row) -> bool,
) -> bool {
    let kinds = running::kinds_of(job.done().1.steps);
    let found = answers::answers(store, b.steps, machine::unbound(nvars), 0);
    &&& running::counted(b)
    &&& b.levels <= nvars <= usize::MAX
    &&& kinds.len() <= b.levels
    &&& running::kinds_of(b.steps).take(kinds.len() as int) == kinds
    &&& found.error is None
    &&& found.rows == rows_of(job, store, nvars).filter(p)
}

proof fn lemma_filter_agrees(s: Seq<Row>, p: spec_fn(Row) -> bool, q: spec_fn(Row) -> bool)
    requires
        forall|i: int| 0 <= i < s.len() ==> p(#[trigger] s[i]) == q(s[i]),
    ensures
        s.filter(p) == s.filter(q),
    decreases s.len(),
{
    reveal(Seq::filter);
    if s.len() > 0 {
        let shorter = s.drop_last();
        assert forall|i: int| 0 <= i < shorter.len() implies p(#[trigger] shorter[i]) == q(
            shorter[i],
        ) by {
            assert(shorter[i] == s[i]);
        }
        lemma_filter_agrees(shorter, p, q);
        assert(p(s[s.len() - 1]) == q(s[s.len() - 1]));
    }
}

proof fn lemma_filter_twice(s: Seq<Row>, p: spec_fn(Row) -> bool, q: spec_fn(Row) -> bool)
    ensures
        s.filter(p).filter(q) == s.filter(|row: Row| p(row) && q(row)),
    decreases s.len(),
{
    reveal(Seq::filter);
    if s.len() > 0 {
        let shorter = s.drop_last();
        lemma_filter_twice(shorter, p, q);
        if p(s.last()) {
            let kept = shorter.filter(p);
            assert(kept.push(s.last()).drop_last() =~= kept);
        }
    }
}

/// The change one filter makes to a body.
spec fn change(w: World, b: Built, a: Address, r: Residual) -> Change {
    Change {
        w,
        body: b.steps,
        at: program::level_position(b.steps, a.0 as nat)->0,
        a,
        r,
    }
}

/// What can be read in some registers can be read in them and more.
proof fn lemma_readable_more(
    w: World,
    kinds: Seq<Seq<PredicateId>>,
    more: Seq<Seq<PredicateId>>,
    a: Address,
    r: Residual,
)
    requires
        kinds.len() <= more.len(),
        more.take(kinds.len() as int) == kinds,
        a.0 < kinds.len(),
        filtering::readable_at(w, kinds, a, r),
    ensures
        filtering::readable_at(w, more, a, r),
{
    assert(more.take(kinds.len() as int)[a.0 as int] == more[a.0 as int]);
    assert forall|env: Row, fact: Fact|
        filtering::placed(w, more, env, a.0 as nat) && running::of_any(
            w.cx,
            w.names,
            fact,
            more[a.0 as int],
        ) implies #[trigger] machine::passes_one(env, r, fact) is Ok by {
        assert forall|i: int| 0 <= i < a.0 implies ((#[trigger] env[i]) matches Some(f)
            && running::of_any(w.cx, w.names, f, kinds[i])) by {
            assert(more.take(kinds.len() as int)[i] == more[i]);
        }
        assert(filtering::placed(w, kinds, env, a.0 as nat));
    }
}

/// A level with one filter more is made of its sources with one filter more.
proof fn lemma_level_filtered(level: Level, r: Residual)
    requires
        level.filter_sealed(r),
    ensures
        level.filtered_by(r).sources@ == program::all_filtered(level.sources@, r),
        forall|i: int|
            0 <= i < level.sources@.len() ==> (#[trigger] level.sources@[i]).filtered_by(
                r,
            ).filters()@ == level.sources@[i].filters()@.push(r),
        running::predicates(level.filtered_by(r).sources@) == running::predicates(level.sources@),
{
    assert forall|i: int| 0 <= i < level.sources@.len() implies (
    #[trigger] level.sources@[i]).filtered_by(r).filters()@ == level.sources@[i].filters()@.push(
        r,
    ) by {
        assert(level.sources@[i].filter_sealed(r));
    }
    let other = level.filtered_by(r);
    assert forall|j: int| 0 <= j < other.sources@.len() implies other.sources@[j]
        == level.sources@[j].filtered_by(r) by {}
    assert(running::predicates(other.sources@) =~= running::predicates(level.sources@));
}

/// The level that fills a register, with one filter more.
proof fn lemma_change(
    w: World,
    b: Built,
    kinds: Seq<Seq<PredicateId>>,
    a: Address,
    r: Residual,
)
    requires
        running::counted(b),
        kinds.len() <= b.levels,
        running::kinds_of(b.steps).take(kinds.len() as int) == kinds,
        b.filter_sealed(a, r),
        a.0 < kinds.len(),
        filtering::readable_at(w, kinds, a, r),
    ensures
        change(w, b, a, r).wf(),
        b.filtered(a, r).steps == change(w, b, a, r).changed(),
        b.filtered(a, r).levels == b.levels,
        running::counted(b.filtered(a, r)),
        running::kinds_of(b.filtered(a, r).steps) == running::kinds_of(b.steps),
{
    let all = running::kinds_of(b.steps);
    filtering::lemma_kinds(b.steps);
    program::lemma_level_position(b.steps, a.0 as nat);
    let c = change(w, b, a, r);
    let level = c.level();
    assert(b.steps[c.at as int] is Level);
    lemma_level_filtered(level, r);
    lemma_readable_more(w, kinds, all, a, r);
    lemma_changed_kinds(b.steps, c.at, level.filtered_by(r));
    assert(b.filtered(a, r).steps == c.changed());
}

/// A filter more.
proof fn lemma_sifted<S: FactStore>(
    job: Job,
    store: S,
    nvars: nat,
    b: Built,
    p: spec_fn(Row) -> bool,
    a: Address,
    r: Residual,
)
    requires
        running::ground(job.w),
        running::reads(job.w, store),
        matching::well_typed(job.w.cx, job.w.names, store),
        sifted(job, store, nvars, b, p),
        b.filter_sealed(a, r),
        a.0 < running::kinds_of(job.done().1.steps).len(),
        filtering::readable_at(job.w, running::kinds_of(job.done().1.steps), a, r),
    ensures
        sifted(
            job,
            store,
            nvars,
            b.filtered(a, r),
            |row: Row| p(row) && filtering::passing(a, r)(row),
        ),
{
    let kinds = running::kinds_of(job.done().1.steps);
    lemma_change(job.w, b, kinds, a, r);
    let c = change(job.w, b, a, r);
    let env = machine::unbound(nvars);
    assert(b.steps.take(0) =~= Seq::<Step>::empty());
    filtering::lemma_changed(c, store, 0, env);
    lemma_filter_twice(rows_of(job, store, nvars), p, c.pass());
}

/// A level in place of one over the same predicates, filling the same register.
proof fn lemma_changed_kinds(body: Seq<Step>, at: nat, level: Level)
    requires
        at < body.len(),
        body[at as int] is Level,
        running::predicates(level.sources@) == running::predicates(
            body[at as int]->Level_0.sources@,
        ),
        level.binds == body[at as int]->Level_0.binds,
        emitting::registers_are_positions(body),
    ensures
        running::kinds_of(body.update(at as int, Step::Level(level))) == running::kinds_of(body),
        emitting::registers_are_positions(body.update(at as int, Step::Level(level))),
    decreases body.len(),
{
    let other = body.update(at as int, Step::Level(level));
    lemma_updated_kinds(body, at, level);
    assert forall|i: int| 0 <= i < other.len() implies ((#[trigger] other[i]) matches Step::Level(
        one,
    ) ==> one.binds@ == seq![Address(program::level_count(other.take(i)) as usize)]) by {
        lemma_updated_count(body, at, level, i);
        assert(body[i] is Level <==> other[i] is Level);
    }
}

proof fn lemma_updated_kinds(body: Seq<Step>, at: nat, level: Level)
    requires
        at < body.len(),
        body[at as int] is Level,
        running::predicates(level.sources@) == running::predicates(
            body[at as int]->Level_0.sources@,
        ),
    ensures
        running::kinds_of(body.update(at as int, Step::Level(level))) == running::kinds_of(body),
    decreases body.len(),
{
    let other = body.update(at as int, Step::Level(level));
    if at == body.len() - 1 {
        assert(other.drop_last() =~= body.drop_last());
    } else {
        assert(other.drop_last() =~= body.drop_last().update(at as int, Step::Level(level)));
        lemma_updated_kinds(body.drop_last(), at, level);
    }
}

proof fn lemma_updated_count(body: Seq<Step>, at: nat, level: Level, i: int)
    requires
        at < body.len(),
        body[at as int] is Level,
        0 <= i <= body.len(),
    ensures
        program::level_count(body.update(at as int, Step::Level(level)).take(i))
            == program::level_count(body.take(i)),
    decreases i,
{
    let other = body.update(at as int, Step::Level(level));
    if i > 0 {
        lemma_updated_count(body, at, level, i - 1);
        assert(other.take(i).drop_last() =~= other.take(i - 1));
        assert(body.take(i).drop_last() =~= body.take(i - 1));
    } else {
        assert(other.take(0) =~= body.take(0));
    }
}

/// A level over nothing more.
proof fn lemma_sifted_out<S: FactStore>(
    job: Job,
    store: S,
    nvars: nat,
    b: Built,
    p: spec_fn(Row) -> bool,
)
    requires
        running::ground(job.w),
        sifted(job, store, nvars, b, p),
        emitting::level_sealed(Seq::empty(), b.next()),
        b.levels < nvars,
    ensures
        sifted(
            job,
            store,
            nvars,
            b.with_level(
                Level {
                    sources: boxed::boxed(Seq::empty()),
                    binds: boxed::boxed(seq![b.next()]),
                },
            ),
            |row: Row| false,
        ),
{
    let none = Seq::<Source>::empty();
    let level = Level { sources: boxed::boxed(none), binds: boxed::boxed(seq![b.next()]) };
    let kinds = running::kinds_of(job.done().1.steps);
    assert(boxed::boxed(none)@ == none);
    assert(boxed::boxed(seq![b.next()])@ == seq![b.next()]);
    running::lemma_with_level(b, level);
    filtering::lemma_emptied(store, b.steps, level, machine::unbound(nvars), 0);
    let b1 = b.with_level(level);
    assert(running::kinds_of(b1.steps).take(kinds.len() as int) =~= running::kinds_of(
        b.steps,
    ).take(kinds.len() as int));
    let rows = rows_of(job, store, nvars);
    lemma_filter_none(rows);
}

proof fn lemma_filter_none(s: Seq<Row>)
    ensures
        s.filter(|row: Row| false) == Seq::<Row>::empty(),
    decreases s.len(),
{
    reveal(Seq::filter);
    if s.len() > 0 {
        lemma_filter_none(s.drop_last());
    }
}

/// The same rows, told apart in another way.
pub proof fn lemma_resifted<S: FactStore>(
    job: Job,
    store: S,
    nvars: nat,
    b: Built,
    p: spec_fn(Row) -> bool,
    q: spec_fn(Row) -> bool,
)
    requires
        sifted(job, store, nvars, b, p),
        forall|i: int|
            0 <= i < rows_of(job, store, nvars).len() ==> p(
                #[trigger] rows_of(job, store, nvars)[i],
            ) == q(rows_of(job, store, nvars)[i]),
    ensures
        sifted(job, store, nvars, b, q),
{
    lemma_filter_agrees(rows_of(job, store, nvars), p, q);
}

// ---- two places that have to be the same ------------------------------------

/// A row as it is known to be: each register of its kind.
pub open spec fn known(job: Job, row: Row) -> bool {
    running::fits(
        job.w.cx,
        job.w,
        job.done().0,
        running::kinds_of(job.done().1.steps),
        row,
    )
}

/// A field that is there in every row of a register's kind.
proof fn lemma_field_there(
    w: World,
    kinds: Seq<Seq<PredicateId>>,
    address: Address,
    path: FieldPath,
    ty: PredicateTy,
    fact: Fact,
) -> (d: Datum)
    requires
        running::typed_slot(w.cx, w.names, kinds, Slot::Field { address, path, ty }),
        running::of_any(w.cx, w.names, fact, kinds[address.0 as int]),
    ensures
        layout::holds_at(fact.key(), path@, d),
        tuple::fits(w.names, d, ty),
        tuple::path_bytes(fact.key(), path@) == Ok::<Seq<u8>, ApertureError>(tuple::enc(d)),
{
    let env = Seq::new(address.0 as nat + 1, |i: int| Some(fact));
    assert(machine::held(env, address) == Ok::<Fact, ApertureError>(fact));
    assert(running::filled_at(w.cx, w.names, env, kinds, address));
    assert(matching::sound_slot(w.cx, w.names, env, Slot::Field { address, path, ty }));
    let d = choose|d: Datum|
        #[trigger] layout::holds_at(fact.key(), path@, d) && tuple::fits(w.names, d, ty);
    d
}

/// The filter that two fields are the same: on the inner of their levels.
pub open spec fn sameness(left: Slot, right: Slot) -> (Address, Residual) {
    let (a, b) = (left->Field_address, right->Field_address);
    if a.0 > b.0 {
        (
            a,
            Residual {
                path: left->Field_path,
                op: ResidualOp::EqRegisterField { address: b, path: right->Field_path },
            },
        )
    } else {
        (
            b,
            Residual {
                path: right->Field_path,
                op: ResidualOp::EqRegisterField { address: a, path: left->Field_path },
            },
        )
    }
}

/// It can be read wherever it is asked.
proof fn lemma_sameness_readable(
    w: World,
    kinds: Seq<Seq<PredicateId>>,
    left: Slot,
    right: Slot,
)
    requires
        left is Field,
        right is Field,
        left->Field_address != right->Field_address,
        running::typed_slot(w.cx, w.names, kinds, left),
        running::typed_slot(w.cx, w.names, kinds, right),
    ensures
        sameness(left, right).0.0 < kinds.len(),
        filtering::readable_at(w, kinds, sameness(left, right).0, sameness(left, right).1),
{
    let (a, r) = sameness(left, right);
    let (inner, outer) = if left->Field_address.0 > right->Field_address.0 {
        (left, right)
    } else {
        (right, left)
    };
    assert forall|env: Row, fact: Fact|
        filtering::placed(w, kinds, env, a.0 as nat) && running::of_any(
            w.cx,
            w.names,
            fact,
            kinds[a.0 as int],
        ) implies #[trigger] machine::passes_one(env, r, fact) is Ok by {
        let d = lemma_field_there(
            w,
            kinds,
            a,
            inner->Field_path,
            inner->Field_ty,
            fact,
        );
        let b = outer->Field_address;
        assert(env[b.0 as int] is Some);
        let e = lemma_field_there(
            w,
            kinds,
            b,
            outer->Field_path,
            outer->Field_ty,
            env[b.0 as int]->0,
        );
    }
}

/// It is passed where the two fields are the same.
proof fn lemma_sameness(job: Job, row: Row, left: Slot, right: Slot)
    requires
        job.done().0.names == job.w.names,
        known(job, row),
        left is Field,
        right is Field,
        left->Field_address != right->Field_address,
        running::typed_slot(
            job.w.cx,
            job.w.names,
            running::kinds_of(job.done().1.steps),
            left,
        ),
        running::typed_slot(
            job.w.cx,
            job.w.names,
            running::kinds_of(job.done().1.steps),
            right,
        ),
    ensures
        filtering::passing(sameness(left, right).0, sameness(left, right).1)(row)
            == reading::same(matching::thing_in(row, left), matching::thing_in(row, right)),
{
    let w = job.w;
    let kinds = running::kinds_of(job.done().1.steps);
    let (a, b) = (left->Field_address, right->Field_address);
    assert(row[a.0 as int] is Some);
    assert(row[b.0 as int] is Some);
    let d = lemma_field_there(
        w,
        kinds,
        a,
        left->Field_path,
        left->Field_ty,
        row[a.0 as int]->0,
    );
    let e = lemma_field_there(
        w,
        kinds,
        b,
        right->Field_path,
        right->Field_ty,
        row[b.0 as int]->0,
    );
}

/// The first `k` pairs of places hold the same.
pub open spec fn agreeing(compares: Seq<Compare>, k: nat) -> spec_fn(Row) -> bool {
    |row: Row|
        forall|i: int|
            0 <= i < k ==> reading::same(
                matching::thing_in(row, (#[trigger] compares[i]).left),
                matching::thing_in(row, compares[i].right),
            )
}

pub proof fn lemma_compared_grow(
    cx: Cx,
    st: St,
    built: Built,
    compares: Seq<Compare>,
    k: nat,
)
    ensures
        scope::further(st, emitting::compared_all(cx, st, built, compares, k).0),
    decreases k,
{
    if k > 0 {
        lemma_compared_grow(cx, st, built, compares, (k - 1) as nat);
    }
}

/// Where nothing is reported, every compare is of two fields of two rows, and is the
/// filter that they are the same.
pub proof fn lemma_compared_all<S: FactStore>(
    job: Job,
    store: S,
    nvars: nat,
    st: St,
    k: nat,
)
    requires
        running::ground(job.w),
        running::reads(job.w, store),
        matching::well_typed(job.w.cx, job.w.names, store),
        job.done().0.names == job.w.names,
        running::told(
            job.w.cx,
            job.done().0,
            running::kinds_of(job.done().1.steps),
        ),
        forall|i: int|
            0 <= i < rows_of(job, store, nvars).len() ==> known(
                job,
                #[trigger] rows_of(job, store, nvars)[i],
            ),
        k <= job.done().0.compares.len(),
        sifted(job, store, nvars, job.done().1, |row: Row| true),
        scope::clean(st, emitting::compared_all(
            job.w.cx,
            st,
            job.done().1,
            job.done().0.compares,
            k,
        ).0),
    ensures
        ({
            let compares = job.done().0.compares;
            let (s1, b1) = emitting::compared_all(job.w.cx, st, job.done().1, compares, k);
            &&& s1 == st
            &&& sifted(job, store, nvars, b1, agreeing(compares, k))
        }),
    decreases k,
{
    let compares = job.done().0.compares;
    let built = job.done().1;
    let kinds = running::kinds_of(built.steps);
    if k == 0 {
        lemma_resifted(job, store, nvars, built, |row: Row| true, agreeing(compares, 0));
    } else {
        let j = (k - 1) as nat;
        lemma_compared_grow(job.w.cx, st, built, compares, j);
        let (s1, b1) = emitting::compared_all(job.w.cx, st, built, compares, j);
        lemma_compared_all(job, store, nvars, st, j);
        let one = compares[k - 1];
        let (s2, b2) = emitting::compared(job.w.cx, s1, b1, one);
        assert(one.left is Field && one.right is Field);
        assert(one.left->Field_address != one.right->Field_address);
        let (a, r) = sameness(one.left, one.right);
        assert(b2 == b1.filtered(a, r));
        lemma_sameness_readable(job.w, kinds, one.left, one.right);
        lemma_sifted(job, store, nvars, b1, agreeing(compares, j), a, r);
        let p = |row: Row| agreeing(compares, j)(row) && filtering::passing(a, r)(row);
        let rows = rows_of(job, store, nvars);
        assert forall|i: int| 0 <= i < rows.len() implies p(#[trigger] rows[i]) == agreeing(
            compares,
            k,
        )(rows[i]) by {
            assert(known(job, rows[i]));
            lemma_sameness(job, rows[i], one.left, one.right);
            let row = rows[i];
            if agreeing(compares, j)(row) && filtering::passing(a, r)(row) {
                assert forall|x: int| 0 <= x < k implies reading::same(
                    matching::thing_in(row, (#[trigger] compares[x]).left),
                    matching::thing_in(row, compares[x].right),
                ) by {
                    if x < j {
                    }
                }
            }
            if agreeing(compares, k)(row) {
                assert(reading::same(
                    matching::thing_in(row, compares[k - 1].left),
                    matching::thing_in(row, compares[k - 1].right),
                ));
            }
        }
        lemma_resifted(job, store, nvars, b2, p, agreeing(compares, k));
    }
}

// ---- constraints no capture applied -----------------------------------------

/// The first `k` constraints hold.
pub open spec fn satisfying(w: World, st: St, k: nat) -> spec_fn(Row) -> bool {
    |row: Row|
        forall|i: int|
            0 <= i < k ==> reading::satisfied(
                w,
                matching::sense_of(st.bindings, row),
                (#[trigger] w.constraints[i]).0,
                w.constraints[i].1,
            )
}

/// What begins with a prefix, by its bytes.
proof fn lemma_begins(names: Names, symbol: Symbol, d: Datum)
    requires
        d is Str,
        names.text(symbol) is Some,
    ensures
        reading::begins(names, symbol, d) == bytes::begins_with(
            tuple::enc(d),
            tuple::enc_str_prefix(names.text(symbol)->0),
        ),
{
    tuple::law_string_prefixes(d->Str_0, names.text(symbol)->0);
}

/// The prefix a field has to begin with, as a filter.
pub open spec fn beginning(path: FieldPath, text: Seq<char>) -> Residual {
    Residual { path, op: ResidualOp::Prefix(boxed::boxed(tuple::enc_str_prefix(text))) }
}

proof fn lemma_beginning_readable(
    w: World,
    kinds: Seq<Seq<PredicateId>>,
    address: Address,
    path: FieldPath,
    text: Seq<char>,
)
    requires
        running::typed_slot(
            w.cx,
            w.names,
            kinds,
            Slot::Field { address, path, ty: PredicateTy::Str },
        ),
    ensures
        filtering::readable_at(w, kinds, address, beginning(path, text)),
{
    let r = beginning(path, text);
    assert forall|env: Row, fact: Fact|
        filtering::placed(w, kinds, env, address.0 as nat) && running::of_any(
            w.cx,
            w.names,
            fact,
            kinds[address.0 as int],
        ) implies #[trigger] machine::passes_one(env, r, fact) is Ok by {
        let d = lemma_field_there(w, kinds, address, path, PredicateTy::Str, fact);
    }
}

/// It is passed where what the variable stands for begins so.
proof fn lemma_beginning(
    job: Job,
    row: Row,
    symbol: Symbol,
    pattern: NodeId,
    address: Address,
    path: FieldPath,
)
    requires
        job.done().0.names == job.w.names,
        known(job, row),
        running::typed_slot(
            job.w.cx,
            job.w.names,
            running::kinds_of(job.done().1.steps),
            Slot::Field { address, path, ty: PredicateTy::Str },
        ),
        model::lookup(job.done().0.bindings, symbol) == Some(
            Slot::Field { address, path, ty: PredicateTy::Str },
        ),
        job.w.cx.ast.kind(pattern) is Prefix,
        job.w.names.text(job.w.cx.ast.kind(pattern)->Prefix_0) is Some,
        ({
            let text = job.w.names.text(job.w.cx.ast.kind(pattern)->Prefix_0)->0;
            boxed::boxed(tuple::enc_str_prefix(text))@ == tuple::enc_str_prefix(text)
        }),
    ensures
        ({
            let text = job.w.names.text(job.w.cx.ast.kind(pattern)->Prefix_0)->0;
            filtering::passing(address, beginning(path, text))(row) == reading::satisfied(
                job.w,
                matching::sense_of(job.done().0.bindings, row),
                symbol,
                pattern,
            )
        }),
{
    let w = job.w;
    let kinds = running::kinds_of(job.done().1.steps);
    let named = w.cx.ast.kind(pattern)->Prefix_0;
    let text = w.names.text(named)->0;
    assert(row[address.0 as int] is Some);
    let fact = row[address.0 as int]->0;
    let d = lemma_field_there(w, kinds, address, path, PredicateTy::Str, fact);
    lemma_begins(w.names, named, d);
    let sense = matching::sense_of(job.done().0.bindings, row);
    assert(sense(symbol) == Some(
        Thing::Field { fact, path: path@, ty: PredicateTy::Str },
    ));
    assert(filtering::passing(address, beginning(path, text))(row) == reading::begins(
        w.names,
        named,
        d,
    ));
    if reading::begins(w.names, named, d) {
        if let Some(Thing::Field { fact: held, path: at, .. }) = sense(symbol) {
            assert(layout::holds_at(held.key(), at, d) && reading::begins(w.names, named, d));
            assert(reading::satisfied(w, sense, symbol, pattern));
        }
    }
    if reading::satisfied(w, sense, symbol, pattern) {
        let e = choose|e: Datum|
            #[trigger] layout::holds_at(fact.key(), path@, e) && reading::begins(
                w.names,
                named,
                e,
            );
        lemma_begins(w.names, named, e);
        assert(tuple::enc(e) == tuple::enc(d));
    }
}

proof fn lemma_pattern_among(constraints: Seq<(Symbol, NodeId)>, i: int)
    requires
        0 <= i < constraints.len(),
    ensures
        model::patterns_of(constraints, constraints[i].0).contains(constraints[i].1),
    decreases constraints.len(),
{
    let symbol = constraints[i].0;
    let shorter = constraints.drop_last();
    let patterns = model::patterns_of(constraints, symbol);
    if i == constraints.len() - 1 {
        assert(patterns[patterns.len() - 1] == constraints[i].1);
    } else {
        lemma_pattern_among(shorter, i);
        let before = model::patterns_of(shorter, symbol);
        let j = choose|j: int| 0 <= j < before.len() && before[j] == shorter[i].1;
        assert(patterns[j] == constraints[i].1);
    }
}

/// A constraint that a capture applied holds.
proof fn lemma_applied(w: World, st: St, sense: Sense, i: int)
    requires
        0 <= i < w.constraints.len(),
        running::obeyed(w, st, sense),
        st.constrained.contains(w.constraints[i].0),
    ensures
        reading::satisfied(w, sense, w.constraints[i].0, w.constraints[i].1),
{
    let (symbol, pattern) = w.constraints[i];
    let j = choose|j: int| 0 <= j < st.constrained.len() && st.constrained[j] == symbol;
    assert(running::obeys(w, sense, st.constrained[j]));
    lemma_pattern_among(w.constraints, i);
    let patterns = model::patterns_of(w.constraints, symbol);
    let at = choose|at: int| 0 <= at < patterns.len() && patterns[at] == pattern;
    if let Some(Thing::Field { fact, path, .. }) = sense(symbol) {
        let d = choose|d: Datum|
            #[trigger] layout::holds_at(fact.key(), path, d) && reading::allowed(w, symbol, d);
        assert(w.cx.ast.kind(patterns[at]) matches ExprKind::Prefix(text) && reading::begins(
            w.names,
            text,
            d,
        ));
        assert(layout::holds_at(fact.key(), path, d));
    }
}

/// Levels and reports are only added.
pub proof fn lemma_constrained_grow(
    cx: Cx,
    st: St,
    built: Built,
    constraints: Seq<(Symbol, NodeId)>,
    k: nat,
    n: nat,
)
    requires
        k <= n,
    ensures
        scope::further(
            emitting::constrained_all(cx, st, built, constraints, k).0,
            emitting::constrained_all(cx, st, built, constraints, n).0,
        ),
        emitting::constrained_all(cx, st, built, constraints, k).1.levels
            <= emitting::constrained_all(cx, st, built, constraints, n).1.levels,
    decreases n,
{
    if k < n {
        lemma_constrained_grow(cx, st, built, constraints, k, (n - 1) as nat);
    }
}

/// One constraint, where nothing is reported.
proof fn lemma_constrained<S: FactStore>(
    job: Job,
    store: S,
    nvars: nat,
    st: St,
    b: Built,
    p: spec_fn(Row) -> bool,
    i: int,
)
    requires
        running::ground(job.w),
        running::reads(job.w, store),
        matching::well_typed(job.w.cx, job.w.names, store),
        matching::linked(job.w, job.w.cx, job.done().0),
        running::told(
            job.w.cx,
            job.done().0,
            running::kinds_of(job.done().1.steps),
        ),
        forall|x: int|
            0 <= x < rows_of(job, store, nvars).len() ==> known(
                job,
                #[trigger] rows_of(job, store, nvars)[x],
            ) && running::obeyed(
                job.w,
                job.done().0,
                matching::sense_of(job.done().0.bindings, rows_of(job, store, nvars)[x]),
            ),
        0 <= i < job.w.constraints.len(),
        st.bindings == job.done().0.bindings,
        st.constrained == job.done().0.constrained,
        st.names == job.done().0.names,
        sifted(job, store, nvars, b, p),
        ({
            let (symbol, pattern) = job.w.constraints[i];
            let (s1, b1) = emitting::constrained(job.w.cx, st, b, symbol, pattern);
            scope::clean(st, s1) && b1.levels <= nvars
        }),
    ensures
        ({
            let (symbol, pattern) = job.w.constraints[i];
            let (s1, b1) = emitting::constrained(job.w.cx, st, b, symbol, pattern);
            &&& s1 == st
            &&& sifted(
                job,
                store,
                nvars,
                b1,
                |row: Row|
                    p(row) && reading::satisfied(
                        job.w,
                        matching::sense_of(job.done().0.bindings, row),
                        symbol,
                        pattern,
                    ),
            )
        }),
{
    let w = job.w;
    let (symbol, pattern) = w.constraints[i];
    let (s1, b1) = emitting::constrained(w.cx, st, b, symbol, pattern);
    let kinds = running::kinds_of(job.done().1.steps);
    let rows = rows_of(job, store, nvars);
    let bindings = job.done().0.bindings;
    let q = |row: Row|
        p(row) && reading::satisfied(w, matching::sense_of(bindings, row), symbol, pattern);
    assert(w.cx.ast.kind(pattern) is Prefix) by {
        assert(job.done().0.constraints[i].1 == pattern);
    }
    let named = w.cx.ast.kind(pattern)->Prefix_0;
    running::lemma_lookup_typed(w.cx, w.names, kinds, bindings, symbol);
    if st.constrained.contains(symbol) {
        assert forall|x: int| 0 <= x < rows.len() implies p(#[trigger] rows[x]) == q(rows[x]) by {
            lemma_applied(w, job.done().0, matching::sense_of(bindings, rows[x]), i);
        }
        lemma_resifted(job, store, nvars, b, p, q);
    } else {
        match model::lookup(bindings, symbol) {
            Some(Slot::Field { address, path, ty }) => {
                assert(ty is Str);
                let text = w.names.text(named)->0;
                let r = beginning(path, text);
                assert(b1 == b.filtered(address, r));
                lemma_beginning_readable(w, kinds, address, path, text);
                lemma_sifted(job, store, nvars, b, p, address, r);
                let passed = |row: Row| p(row) && filtering::passing(address, r)(row);
                assert forall|x: int| 0 <= x < rows.len() implies passed(#[trigger] rows[x]) == q(
                    rows[x],
                ) by {
                    assert(known(job, rows[x]));
                    lemma_beginning(job, rows[x], symbol, pattern, address, path);
                }
                lemma_resifted(job, store, nvars, b1, passed, q);
            },
            Some(Slot::Const(folded)) => {
                assert(matching::sound_slot(
                    w.cx,
                    w.names,
                    Seq::empty(),
                    Slot::Const(folded),
                ));
                assert(w.cx.ast.kind(folded) is Lit);
                let held = w.cx.ast.kind(folded)->Lit_0->Str_0;
                assert(w.cx.ast.kind(folded) == ExprKind::Lit(Literal::Str(held)));
                let d = Datum::Str(w.names.text(held)->0);
                lemma_begins(w.names, named, d);
                let holds = reading::begins(w.names, named, d);
                assert forall|x: int| 0 <= x < rows.len() implies reading::satisfied(
                    w,
                    matching::sense_of(bindings, #[trigger] rows[x]),
                    symbol,
                    pattern,
                ) == holds by {
                    assert(matching::sense_of(bindings, rows[x])(symbol) == Some(
                        Thing::Const(folded),
                    ));
                }
                if holds {
                    assert(b1 == b);
                    lemma_resifted(job, store, nvars, b, p, q);
                } else {
                    assert(b1.levels == b.levels + 1);
                    lemma_sifted_out(job, store, nvars, b, p);
                    lemma_resifted(job, store, nvars, b1, |row: Row| false, q);
                }
            },
            _ => {},
        }
    }
}

/// All of them.
pub proof fn lemma_constrained_all<S: FactStore>(
    job: Job,
    store: S,
    nvars: nat,
    st: St,
    b: Built,
    p: spec_fn(Row) -> bool,
    k: nat,
)
    requires
        running::ground(job.w),
        running::reads(job.w, store),
        matching::well_typed(job.w.cx, job.w.names, store),
        matching::linked(job.w, job.w.cx, job.done().0),
        running::told(
            job.w.cx,
            job.done().0,
            running::kinds_of(job.done().1.steps),
        ),
        forall|x: int|
            0 <= x < rows_of(job, store, nvars).len() ==> known(
                job,
                #[trigger] rows_of(job, store, nvars)[x],
            ) && running::obeyed(
                job.w,
                job.done().0,
                matching::sense_of(job.done().0.bindings, rows_of(job, store, nvars)[x]),
            ),
        k <= job.w.constraints.len(),
        st.bindings == job.done().0.bindings,
        st.constrained == job.done().0.constrained,
        st.names == job.done().0.names,
        sifted(job, store, nvars, b, p),
        ({
            let (s1, b1) = emitting::constrained_all(job.w.cx, st, b, job.w.constraints, k);
            scope::clean(st, s1) && b1.levels <= nvars
        }),
    ensures
        ({
            let (s1, b1) = emitting::constrained_all(job.w.cx, st, b, job.w.constraints, k);
            &&& s1 == st
            &&& sifted(
                job,
                store,
                nvars,
                b1,
                |row: Row| p(row) && satisfying(job.w, job.done().0, k)(row),
            )
        }),
    decreases k,
{
    let w = job.w;
    let last = job.done().0;
    let rows = rows_of(job, store, nvars);
    let q = |row: Row| p(row) && satisfying(w, last, k)(row);
    if k == 0 {
        lemma_resifted(job, store, nvars, b, p, q);
    } else {
        let j = (k - 1) as nat;
        lemma_constrained_grow(w.cx, st, b, w.constraints, j, k);
        lemma_constrained_grow(w.cx, st, b, w.constraints, 0, j);
        let (s1, b1) = emitting::constrained_all(w.cx, st, b, w.constraints, j);
        lemma_constrained_all(job, store, nvars, st, b, p, j);
        let before = |row: Row| p(row) && satisfying(w, last, j)(row);
        lemma_constrained(job, store, nvars, st, b1, before, j as int);
        let (symbol, pattern) = w.constraints[k - 1];
        let passed = |row: Row|
            before(row) && reading::satisfied(
                w,
                matching::sense_of(last.bindings, row),
                symbol,
                pattern,
            );
        assert forall|x: int| 0 <= x < rows.len() implies passed(#[trigger] rows[x]) == q(
            rows[x],
        ) by {
            lemma_one_more(w, last, rows[x], k);
        }
        let b2 = emitting::constrained_all(w.cx, st, b, w.constraints, k).1;
        lemma_resifted(job, store, nvars, b2, passed, q);
    }
}

proof fn lemma_one_more(w: World, st: St, row: Row, k: nat)
    requires
        0 < k <= w.constraints.len(),
    ensures
        satisfying(w, st, k)(row) == (satisfying(w, st, (k - 1) as nat)(row)
            && reading::satisfied(
            w,
            matching::sense_of(st.bindings, row),
            w.constraints[k - 1].0,
            w.constraints[k - 1].1,
        )),
{
    let j = (k - 1) as nat;
    let sense = matching::sense_of(st.bindings, row);
    if satisfying(w, st, k)(row) {
        assert(reading::satisfied(w, sense, w.constraints[k - 1].0, w.constraints[k - 1].1));
    }
    if satisfying(w, st, j)(row) && reading::satisfied(
        w,
        sense,
        w.constraints[k - 1].0,
        w.constraints[k - 1].1,
    ) {
        assert forall|i: int| 0 <= i < k implies reading::satisfied(
            w,
            sense,
            (#[trigger] w.constraints[i]).0,
            w.constraints[i].1,
        ) by {
            if i < j {
            }
        }
    }
}

} // verus!
