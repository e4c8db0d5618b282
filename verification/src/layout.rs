//! Where the values of a stored key lie: its fields back to back, and the pieces of a
//! record field inside it.
use vstd::prelude::*;

use crate::error::{ApertureError, StoreCodecError};
use crate::plan::Route;
use crate::schema::{Names, PredicateTy};
use crate::tuple;
use crate::tuple::Datum;

verus! {

/// A key of a type holds a value: a record's fields back to back, with nothing around
/// them, or any other value as it is.
pub open spec fn key_is(names: Names, key: Seq<u8>, ty: PredicateTy, d: Datum) -> bool {
    &&& tuple::fits(names, d, ty)
    &&& match d {
        Datum::Record(fields) => key == tuple::enc_fields(tuple::values_of(fields), d),
        _ => key == tuple::enc(d),
    }
}

/// A path into a key leads to a value.
pub open spec fn holds_at(key: Seq<u8>, path: Route, v: Datum) -> bool {
    tuple::path_span(key, path) matches Ok((p, q)) && p < q <= key.len() && key.subrange(
        p as int,
        q as int,
    ) == tuple::enc(v)
}

/// How far the first `k` fields of a record reach.
pub open spec fn reach(d: Datum, k: nat) -> nat {
    tuple::enc_fields(tuple::values_of(d->Record_0).take(k as int), d).len()
}

/// A flat key is what stands before field `k`, the field, and the rest.
pub proof fn lemma_flat(key: Seq<u8>, d: Datum, k: nat)
    requires
        d is Record,
        key == tuple::enc_fields(tuple::values_of(d->Record_0), d),
        k < d->Record_0.len(),
    ensures
        ({
            let e = tuple::enc(d->Record_0[k as int].1);
            &&& reach(d, k) + e.len() == reach(d, k + 1)
            &&& reach(d, k + 1) <= key.len()
            &&& key.subrange(reach(d, k) as int, reach(d, k + 1) as int) == e
        }),
{
    let values = tuple::values_of(d->Record_0);
    let n = values.len();
    assert(values.take(n as int) =~= values);
    tuple::lemma_enc_fields_prefix(d, k, n);
    tuple::lemma_enc_fields_prefix(d, k + 1, n);
    tuple::lemma_enc_fields_step(d, k);
    let (a, b) = (
        tuple::enc_fields(values.take(k as int), d),
        tuple::enc_fields(values.take((k + 1) as int), d),
    );
    let e = tuple::enc(values[k as int]);
    assert(b =~= a + e);
    assert(key.take(b.len() as int) == b);
    assert(key.subrange(a.len() as int, b.len() as int) =~= key.take(b.len() as int).skip(
        a.len() as int,
    ));
    assert((a + e).skip(a.len() as int) =~= e);
}

/// Field `k` of a flat key begins where the fields before it end.
pub proof fn lemma_field_start(key: Seq<u8>, d: Datum, k: nat)
    requires
        d is Record,
        key == tuple::enc_fields(tuple::values_of(d->Record_0), d),
        k <= d->Record_0.len(),
    ensures
        tuple::field_start(key, k) == Ok::<nat, StoreCodecError>(reach(d, k)),
    decreases k,
{
    if k == 0 {
        assert(tuple::values_of(d->Record_0).take(0) =~= Seq::<Datum>::empty());
    } else {
        let j = (k - 1) as nat;
        lemma_field_start(key, d, j);
        lemma_flat(key, d, j);
        let (p, q) = (reach(d, j) as int, reach(d, k) as int);
        let v = d->Record_0[j as int].1;
        assert(key =~= key.take(p) + tuple::enc(v) + key.skip(q)) by {
            assert(key =~= key.take(p) + key.subrange(p, q) + key.skip(q));
        }
        assert(key.take(p).len() == p);
        tuple::law_values_are_self_delimiting(key.take(p), v, key.skip(q));
    }
}

/// A top-level path leads to the field.
pub proof fn lemma_top(key: Seq<u8>, d: Datum, path: Route)
    requires
        d is Record,
        key == tuple::enc_fields(tuple::values_of(d->Record_0), d),
        path.top() < d->Record_0.len(),
        path.inner().len() == 0,
    ensures
        holds_at(key, path, d->Record_0[path.top() as int].1),
        tuple::path_span(key, path) == Ok::<(nat, nat), ApertureError>(
            (reach(d, path.top() as nat), reach(d, path.top() as nat + 1)),
        ),
{
    let k = path.top() as nat;
    lemma_field_start(key, d, k);
    lemma_field_start(key, d, k + 1);
    lemma_flat(key, d, k);
    tuple::lemma_enc_begins(d->Record_0[k as int].1);
}

/// The path to a key that is no record leads to the whole of it.
pub proof fn lemma_whole(key: Seq<u8>, d: Datum, path: Route)
    requires
        key == tuple::enc(d),
        path.top() == 0,
        path.inner().len() == 0,
    ensures
        holds_at(key, path, d),
        tuple::path_span(key, path) == Ok::<(nat, nat), ApertureError>((0nat, key.len())),
{
    let nothing = Seq::<u8>::empty();
    assert(key =~= nothing + tuple::enc(d) + nothing);
    tuple::law_values_are_self_delimiting(nothing, d, nothing);
    tuple::lemma_enc_begins(d);
    reveal_with_fuel(tuple::field_start, 3);
    assert(tuple::field_start(key, 0) == Ok::<nat, StoreCodecError>(0));
    assert(tuple::field_start(key, 1) == Ok::<nat, StoreCodecError>(key.len()));
    assert(key.subrange(0, key.len() as int) =~= key);
}

/// Walking the members of a record: from member `j` to member `i`.
proof fn lemma_member_start(
    b: Seq<u8>,
    before: Seq<u8>,
    d: Datum,
    after: Seq<u8>,
    j: nat,
    i: nat,
    step: usize,
)
    requires
        d is Record,
        b == before + tuple::enc(d) + after,
        j <= i < d->Record_0.len(),
    ensures
        tuple::member_start(b, before.len() + 1 + reach(d, j), (i - j) as nat, step) == Ok::<
            nat,
            ApertureError,
        >(before.len() + 1 + reach(d, i)),
    decreases i - j,
{
    let values = tuple::values_of(d->Record_0);
    tuple::lemma_record_parts(before, d, after, j);
    let p = before.len() + 1 + reach(d, j);
    if j < i {
        let q = p + tuple::enc(values[j as int]).len();
        assert(b.take(p as int).len() == p);
        tuple::law_values_are_self_delimiting(b.take(p as int), values[j as int], b.skip(q as int));
        lemma_member_start(b, before, d, after, j + 1, i, step);
    }
}

/// The first steps of a path do not depend on the later ones.
proof fn lemma_nested_prefix(b: Seq<u8>, span: (nat, nat), steps: Seq<usize>, more: Seq<usize>, k: nat)
    requires
        k <= steps.len(),
        k <= more.len(),
        forall|i: int| 0 <= i < k ==> steps[i] == more[i],
    ensures
        tuple::nested_span(b, span, steps, k) == tuple::nested_span(b, span, more, k),
    decreases k,
{
    if k > 0 {
        lemma_nested_prefix(b, span, steps, more, (k - 1) as nat);
    }
}

/// One step deeper into a record.
pub proof fn lemma_deeper(key: Seq<u8>, path: Route, v: Datum, inner: Route, i: usize)
    requires
        holds_at(key, path, v),
        v is Record,
        i < v->Record_0.len(),
        inner.top() == path.top(),
        inner.inner() == path.inner().push(i),
    ensures
        holds_at(key, inner, v->Record_0[i as int].1),
{
    let (p, q) = tuple::path_span(key, path)->Ok_0;
    let (before, after) = (key.take(p as int), key.skip(q as int));
    assert(key =~= before + tuple::enc(v) + after) by {
        assert(key =~= key.take(p as int) + key.subrange(p as int, q as int) + key.skip(q as int));
    }
    let values = tuple::values_of(v->Record_0);
    let span = tuple::field_span(key, path.top() as nat)->Ok_0;
    let steps = path.inner();
    lemma_nested_prefix(key, span, steps, inner.inner(), steps.len());
    tuple::lemma_record_parts(before, v, after, 0);
    assert(values.take(0) =~= Seq::<Datum>::empty());
    lemma_member_start(key, before, v, after, 0, i as nat, i);
    tuple::lemma_record_parts(before, v, after, i as nat);
    let start = p + 1 + reach(v, i as nat);
    let end = start + tuple::enc(values[i as int]).len();
    assert(key.take(start as int).len() == start);
    tuple::law_values_are_self_delimiting(
        key.take(start as int),
        values[i as int],
        key.skip(end as int),
    );
    tuple::lemma_enc_begins(values[i as int]);
    assert(key.subrange(start as int, end as int) =~= tuple::enc(values[i as int])) by {
        let whole = key.take(start as int) + tuple::enc(values[i as int]) + key.skip(end as int);
        assert(whole.subrange(start as int, end as int) =~= tuple::enc(values[i as int]));
    }
    assert(tuple::nested_span(key, span, inner.inner(), steps.len() + 1) == tuple::member_span(
        key,
        p,
        i,
    ));
}

} // verus!
