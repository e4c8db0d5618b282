//! Hand-built pieces for running plans: key-field encoders, an interner, and a runner
//! that collects every row.
use tokio_util::sync::CancellationToken;

use vstd::prelude::*;

use crate::bytes::append_bytes;
use crate::error::ApertureError;
use crate::iter;
use crate::iter::{Executor, Iteratee, Row, Stream};
use crate::machine;
use crate::plan::{Fact, FactStore, Plan, Projection};
use crate::schema;
use crate::schema::{LocalInterner, Names, SchemaInterner};
use crate::tuple;
use crate::tuple::{put_i64, put_str, Datum, Value};

verus! {

/// Encode a single integer key field.
pub fn i64_field(v: i64) -> (field: Vec<u8>)
    ensures
        field@ == tuple::enc_i64(v),
{
    let mut b: Vec<u8> = Vec::new();
    put_i64(&mut b, v);
    proof {
        assert(b@ =~= tuple::enc_i64(v));
    }
    b
}

/// Encode a single string key field.
pub fn str_field(s: &str) -> (field: Vec<u8>)
    ensures
        field@ == tuple::enc_str(s@),
{
    let mut b: Vec<u8> = Vec::new();
    put_str(&mut b, s);
    proof {
        assert(b@ =~= tuple::enc_str(s@));
    }
    b
}

/// The first `k` of some fields, back to back.
pub open spec fn concatenated(fields: Seq<&[u8]>, k: nat) -> Seq<u8>
    decreases k,
{
    if k == 0 {
        Seq::empty()
    } else {
        concatenated(fields, (k - 1) as nat) + fields[k - 1]@
    }
}

/// Concatenate encoded fields into one composite key. The codec is self-delimiting, so a
/// key of several fields is its fields back to back.
pub fn compose(fields: &[&[u8]]) -> (key: Vec<u8>)
    ensures
        key@ == concatenated(fields@, fields@.len()),
{
    let mut key: Vec<u8> = Vec::new();
    let mut i: usize = 0;
    while i < fields.len()
        invariant
            i <= fields@.len(),
            key@ == concatenated(fields@, i as nat),
        decreases fields@.len() - i,
    {
        append_bytes(&mut key, fields[i]);
        i += 1;
    }
    key
}

/// An interner whose schema tier holds `names`, so that the fields of a record head
/// resolve.
pub fn interner_with(names: &[&str]) -> (interner: LocalInterner)
    requires
        names@.len() <= schema::MAX_NAMES,
    ensures
        interner@ == (Names {
            schema: schema::distinct(names@, names@.len()),
            local: Seq::empty(),
        }),
{
    LocalInterner::new(SchemaInterner::of(names))
}

/// `CancellationToken::new`: a token nobody has set yet. Nothing is promised of it: a
/// clone of it may set it.
#[verifier::external_body]
fn fresh_token() -> CancellationToken {
    CancellationToken::new()
}

/// Whether `values` are the heads of `rows`, in order.
pub open spec fn heads_of<S: FactStore>(
    store: S,
    names: Names,
    head: Projection,
    rows: Seq<Seq<Option<Fact>>>,
    values: Seq<Value>,
) -> bool {
    &&& values.len() == rows.len()
    &&& forall|i: int|
        0 <= i < values.len() ==> iter::projected(store, names, rows[i], head) == Ok::<
            Datum,
            ApertureError,
        >((#[trigger] values[i]).datum())
}

/// Run `plan` to completion against `store`, collecting every projected row.
pub fn collect_rows<S: FactStore>(store: S, plan: Plan, interner: &LocalInterner) -> (rows: Result<
    Vec<Value>,
    ApertureError,
>)
    requires
        machine::binds_once(plan.body@),
    ensures
        ({
            let run = machine::run(
                store.facts(),
                plan.body@,
                machine::unbound(plan.nvars as nat),
                0,
            );
            match rows {
                Ok(values) => run.error is None && heads_of(
                    store,
                    interner@,
                    plan.head.shape(),
                    run.rows,
                    values@,
                ),
                Err(e) => {
                    ||| run.error == Some(e)
                    ||| exists|k: int|
                        0 <= k < run.rows.len() && #[trigger] iter::projected(
                            store,
                            interner@,
                            run.rows[k],
                            plan.head.shape(),
                        ) == Err::<Datum, ApertureError>(e)
                    ||| store.may_fail()
                    ||| e is Cancelled && store.facts().len() >= iter::CANCELLATION_STRIDE
                },
            }
        }),
{
    let cancel = fresh_token();
    let mut executor = Executor::new(store, plan);
    let ghost before = executor;
    let ghost rows = executor.pending().rows;
    let step = |acc: Vec<Value>, row: Row<'_, S>| -> (answer: Result<
        Stream<Vec<Value>>,
        ApertureError,
    >)
        requires
            row.state.wf(),
        ensures
            collects(row, interner@, acc@, answer),
        { collect_one(acc, row, interner) };
    let none: Vec<Value> = Vec::new();
    let ended = executor.enumerate(none, step, &cancel);
    let ghost accs = choose|accs: Seq<Vec<Value>>|
        accs.len() > 0 && accs[0] == none && #[trigger] iter::enumerated(
            before,
            executor,
            step,
            accs,
            ended,
        );
    proof {
        lemma_collected(before, executor, step, accs, ended, interner@);
    }
    match ended {
        Ok(Iteratee::Done(rows)) => Ok(rows),
        Ok(Iteratee::Suspended(rows, _)) => Ok(rows),
        Err(e) => Err(e),
    }
}

/// What the collecting step answers: the row's head added, or why it has none.
pub open spec fn collects<S: FactStore>(
    row: Row<'_, S>,
    names: Names,
    acc: Seq<Value>,
    answer: Result<Stream<Vec<Value>>, ApertureError>,
) -> bool {
    let expected = iter::projected(*row.store, names, row.state@, row.plan.head.shape());
    match answer {
        Ok(Stream::Continue(next)) => {
            &&& next@.len() == acc.len() + 1
            &&& next@.drop_last() == acc
            &&& iter::projects(*row.store, Ok(next@.last()), expected)
        },
        Ok(Stream::Suspend(_)) => false,
        Err(e) => iter::projects(*row.store, Err(e), expected),
    }
}

fn collect_one<S: FactStore>(
    acc: Vec<Value>,
    row: Row<'_, S>,
    interner: &LocalInterner,
) -> (answer: Result<Stream<Vec<Value>>, ApertureError>)
    requires
        row.state.wf(),
    ensures
        collects(row, interner@, acc@, answer),
{
    let ghost before = acc@;
    let mut values = acc;
    match row.to_value(interner) {
        Ok(value) => {
            values.push(value);
            proof {
                assert(values@.drop_last() =~= before);
            }
            Ok(Stream::Continue(values))
        },
        Err(e) => Err(e),
    }
}

/// What collecting comes to.
pub open spec fn collected<S: FactStore>(
    before: Executor<S>,
    names: Names,
    ended: Result<Iteratee<Vec<Value>>, ApertureError>,
) -> bool {
    let store = before.source();
    let head = before.program().head.shape();
    let run = before.pending();
    match ended {
        Ok(Iteratee::Done(values)) => run.error is None && heads_of(
            store,
            names,
            head,
            run.rows,
            values@,
        ),
        Ok(Iteratee::Suspended(_, _)) => false,
        Err(e) => {
            ||| run.error == Some(e)
            ||| exists|k: int|
                0 <= k < run.rows.len() && #[trigger] iter::projected(
                    store,
                    names,
                    run.rows[k],
                    head,
                ) == Err::<Datum, ApertureError>(e)
            ||| before.from_outside(e, true)
        },
    }
}

proof fn lemma_collected<
    S: FactStore,
    F: Fn(Vec<Value>, Row<'_, S>) -> Result<Stream<Vec<Value>>, ApertureError>,
>(
    before: Executor<S>,
    after: Executor<S>,
    step: F,
    accs: Seq<Vec<Value>>,
    ended: Result<Iteratee<Vec<Value>>, ApertureError>,
    names: Names,
)
    requires
        accs.len() > 0,
        accs[0]@.len() == 0,
        iter::enumerated(before, after, step, accs, ended),
        forall|
            acc: Vec<Value>,
            row: Row<'_, S>,
            answer: Result<Stream<Vec<Value>>, ApertureError>,
        | #[trigger]
            call_ensures(step, (acc, row), answer) ==> collects(row, names, acc@, answer),
    ensures
        collected(before, names, ended),
{
    let (store, plan) = (before.source(), before.program());
    let head = plan.head.shape();
    let rows = before.pending().rows;
    let k = accs.len() - 1;
    assert forall|i: int| 0 <= i < accs.len() - 1 implies #[trigger] one_more(
        store,
        names,
        head,
        rows[i],
        accs[i]@,
        accs[i + 1]@,
    ) by {
        let answer = Ok::<Stream<Vec<Value>>, ApertureError>(Stream::Continue(accs[i + 1]));
        assert(iter::may_answer(step, accs[i], store, plan, rows[i], answer));
        let row = choose|row: Row<'_, S>|
            row.shows(store, plan, rows[i]) && #[trigger] call_ensures(
                step,
                (accs[i], row),
                answer,
            );
        assert(collects(row, names, accs[i]@, answer));
    }
    lemma_heads(store, names, head, rows, accs, k as nat);
    assert(rows.take(rows.len() as int) =~= rows);
    if k < rows.len() {
        assert forall|answer: Result<Stream<Vec<Value>>, ApertureError>| #[trigger]
            iter::may_answer(step, accs[k], store, plan, rows[k], answer) implies exists|
            row: Row<'_, S>,
        |
            row.shows(store, plan, rows[k]) && #[trigger] collects(
                row,
                names,
                accs[k]@,
                answer,
            ) by {
            let row = choose|row: Row<'_, S>|
                row.shows(store, plan, rows[k]) && #[trigger] call_ensures(
                    step,
                    (accs[k], row),
                    answer,
                );
            assert(collects(row, names, accs[k]@, answer));
        }
    }
}

/// One more value, the head of `env`.
pub open spec fn one_more<S: FactStore>(
    store: S,
    names: Names,
    head: Projection,
    env: Seq<Option<Fact>>,
    before: Seq<Value>,
    after: Seq<Value>,
) -> bool {
    &&& after.len() == before.len() + 1
    &&& after.drop_last() == before
    &&& iter::projected(store, names, env, head) == Ok::<Datum, ApertureError>(
        after.last().datum(),
    )
}

proof fn lemma_heads<S: FactStore>(
    store: S,
    names: Names,
    head: Projection,
    rows: Seq<Seq<Option<Fact>>>,
    accs: Seq<Vec<Value>>,
    k: nat,
)
    requires
        k < accs.len() <= rows.len() + 1,
        accs[0]@.len() == 0,
        forall|i: int|
            0 <= i < accs.len() - 1 ==> #[trigger] one_more(
                store,
                names,
                head,
                rows[i],
                accs[i]@,
                accs[i + 1]@,
            ),
    ensures
        heads_of(store, names, head, rows.take(k as int), accs[k as int]@),
    decreases k,
{
    if k > 0 {
        lemma_heads(store, names, head, rows, accs, (k - 1) as nat);
        assert(one_more(store, names, head, rows[k - 1], accs[k - 1]@, accs[k - 1 + 1]@));
        let (a, b) = (accs[k - 1]@, accs[k as int]@);
        assert forall|i: int| 0 <= i < b.len() implies iter::projected(
            store,
            names,
            rows.take(k as int)[i],
            head,
        ) == Ok::<Datum, ApertureError>((#[trigger] b[i]).datum()) by {
            if i < a.len() {
                assert(b[i] == b.drop_last()[i]);
                assert(rows.take(k as int)[i] == rows.take(k - 1)[i]);
                assert(iter::projected(store, names, rows.take(k - 1)[i], head) == Ok::<
                    Datum,
                    ApertureError,
                >(a[i].datum()));
            }
        }
    }
}

} // verus!
