//! Queries written otherwise: what rewriting a body does to the rows that are answered.
use vstd::multiset::Multiset;
use vstd::prelude::*;

use super::answering::Job;
use super::emitting::Compiled;
use super::model::{Alt, Gen, Stmt};
use super::orders;
use crate::diag::Report;
use crate::plan::FactStore;
use crate::reading;
use crate::reading::joining;
use crate::reading::laws;
use crate::reading::laws::Body;
use crate::reading::likeness;
use crate::reading::sameness;
use crate::reading::{Found, Place};
use crate::schema::{Names, PredicateId, Symbol};
use crate::tuple::Datum;

verus! {

/// A query's statements, in the order they were flattened in.
pub open spec fn body_of(job: Job) -> Body {
    Body { stmts: job.stmts, order: job.order }
}

/// Two queries over the same nodes, that may differ in the statements of their bodies.
pub open spec fn same_but_for_the_body(one: Job, other: Job) -> bool {
    &&& sameness::same_nodes(one.w, other.w)
    &&& orders::beginning(one) == orders::beginning(other)
}

/// The rows a body means against a query's world.
pub open spec fn rows_of(job: Job, body: Body) -> Multiset<Option<Datum>> {
    reading::orders::rows(job.w, body.meant(job.w, orders::beginning(job)))
}

/// What a flattened query answers is what its body means against another over its nodes.
proof fn lemma_answers<S: FactStore>(
    one: Job,
    job: Job,
    store: S,
    names: Names,
    reports: Seq<Report>,
    compiled: Compiled,
)
    requires
        same_but_for_the_body(one, job),
        orders::flattens(job, store, names, reports, compiled),
    ensures
        orders::said_rows(store, one.w.names, compiled) == rows_of(one, body_of(job)),
{
    let found = orders::beginning(job);
    orders::lemma_said(job, store, names, reports, compiled);
    sameness::lemma_meant(one.w, job.w, job.stmts, job.order, found);
    sameness::lemma_rows(
        one.w,
        job.w,
        reading::meant(job.w, job.stmts, job.order, found),
    );
}

/// Writing a query's statements in another order changes no answer: the two compiled queries
/// answer the same rows over one store, each as often. `places[i]` is where the `i`th
/// statement was, and the order the rewritten query is read in is one the first flattens in.
pub proof fn law_a_rewritten_query_answers_the_same_rows<S: FactStore>(
    written: Job,
    rewritten: Job,
    places: Seq<usize>,
    store: S,
    names: Names,
    reports: Seq<Report>,
    first: Compiled,
    second: Compiled,
    third: Compiled,
)
    requires
        same_but_for_the_body(written, rewritten),
        laws::rewrites(written.stmts, rewritten.stmts, places),
        orders::flattens(written, store, names, reports, first),
        orders::flattens(rewritten, store, names, reports, second),
        ({
            let order = laws::unwritten(places, rewritten.order);
            let reread = Job { order, ..written };
            &&& orders::flattens(reread, store, names, reports, third)
            &&& orders::formed_in(reread)
            &&& joining::unmixed(
                written.w,
                orders::beginning(written).sense,
                written.stmts,
                written.order,
                order,
            )
        }),
        orders::formed_in(written),
        forall|p: PredicateId|
            (#[trigger] written.w.cx.schema.predicate(p)) matches Some(declared)
                ==> likeness::named_once(declared.key),
    ensures
        orders::said_rows(store, written.w.names, first) == orders::said_rows(
            store,
            written.w.names,
            second,
        ),
{
    let order = laws::unwritten(places, rewritten.order);
    let reread = Job { order, ..written };
    orders::law_every_order_answers_the_same_rows(
        written,
        reread,
        store,
        names,
        reports,
        first,
        third,
    );
    assert(same_but_for_the_body(written, reread));
    lemma_answers(written, reread, store, names, reports, third);
    lemma_answers(written, rewritten, store, names, reports, second);
    laws::lemma_rewritten(
        written.w,
        body_of(reread),
        body_of(rewritten),
        places,
        orders::beginning(written),
    );
}

/// To deny a disjunction is to deny each branch: two flattened queries, one that denies
/// `a | b` and one that denies `a` and then `b`, answer the same rows.
pub proof fn law_denying_a_disjunction_answers_as_denying_each_branch<S: FactStore>(
    together: Job,
    apart: Job,
    p: nat,
    whole: Gen,
    first: Gen,
    second: Gen,
    store: S,
    names: Names,
    reports: Seq<Report>,
    one: Compiled,
    other: Compiled,
)
    requires
        same_but_for_the_body(together, apart),
        orders::flattens(together, store, names, reports, one),
        orders::flattens(apart, store, names, reports, other),
        laws::denies_apart(body_of(together), body_of(apart), p, whole, first, second),
    ensures
        orders::said_rows(store, together.w.names, one) == orders::said_rows(
            store,
            together.w.names,
            other,
        ),
{
    assert(same_but_for_the_body(together, together));
    lemma_answers(together, together, store, names, reports, one);
    lemma_answers(together, apart, store, names, reports, other);
    laws::law_denying_a_disjunction_means_denying_each_branch(
        together.w,
        body_of(together),
        body_of(apart),
        p,
        whole,
        first,
        second,
        orders::beginning(together),
    );
}

/// A negation and its assertion share the rows of a flattened query out. The query that denies
/// a pattern answers all its rows but some; and the query that asserts the pattern answers just
/// those, though it may answer one more often.
pub proof fn law_a_denial_and_its_assertion_share_the_rows<S: FactStore>(
    plain: Job,
    denied: Job,
    asserted: Job,
    tested: Gen,
    scan: Gen,
    store: S,
    names: Names,
    reports: Seq<Report>,
    all: Compiled,
    without: Compiled,
    with: Compiled,
)
    requires
        same_but_for_the_body(plain, denied),
        same_but_for_the_body(plain, asserted),
        orders::flattens(plain, store, names, reports, all),
        orders::flattens(denied, store, names, reports, without),
        orders::flattens(asserted, store, names, reports, with),
        laws::ends_in(body_of(plain), body_of(denied), Stmt::Negate(tested)),
        laws::ends_in(body_of(plain), body_of(asserted), Stmt::Scan(scan)),
        tested.alternatives@ == scan.alternatives@,
        scan.row is None,
        forall|way: Found| #[trigger]
            body_of(plain).ways(plain.w, 0, orders::beginning(plain)).contains(way)
                ==> laws::names_nothing(plain.w, scan, way),
    ensures
        ({
            let w = plain.w;
            let dropped = reading::orders::rows(
                w,
                body_of(plain).meant(w, orders::beginning(plain)).filter(
                    laws::stopped(w, scan.alternatives@),
                ),
            );
            &&& orders::said_rows(store, w.names, all) == orders::said_rows(
                store,
                w.names,
                without,
            ).add(dropped)
            &&& forall|row: Option<Datum>| #[trigger]
                orders::said_rows(store, w.names, with).contains(row) <==> dropped.contains(row)
        }),
{
    let w = plain.w;
    let found = orders::beginning(plain);
    assert(same_but_for_the_body(plain, plain));
    lemma_answers(plain, plain, store, names, reports, all);
    lemma_answers(plain, denied, store, names, reports, without);
    lemma_answers(plain, asserted, store, names, reports, with);
    laws::law_a_negation_keeps_what_it_lets_through(
        w,
        body_of(plain),
        body_of(denied),
        tested,
        found,
    );
    laws::law_an_assertion_means_what_its_denial_drops(
        w,
        body_of(plain),
        body_of(asserted),
        scan,
        found,
    );
    let meant = body_of(plain).meant(w, found);
    laws::lemma_parted(w, meant, scan.alternatives@);
    laws::lemma_same_row_set(
        w,
        body_of(asserted).meant(w, found),
        meant.filter(laws::stopped(w, scan.alternatives@)),
    );
}

/// A disjunction is its branches: the flattened query with a pattern `a | b` answers the rows of
/// the two with `a` and with `b`, each as often as both together. The branches name the same
/// variables, at the same places.
pub proof fn law_a_disjunction_answers_the_rows_of_its_branches<S: FactStore>(
    both: Job,
    first: Job,
    second: Job,
    p: nat,
    whole: Gen,
    one: Gen,
    other: Gen,
    taken: Seq<(Symbol, Place)>,
    store: S,
    names: Names,
    reports: Seq<Report>,
    all: Compiled,
    left: Compiled,
    right: Compiled,
)
    requires
        same_but_for_the_body(both, first),
        same_but_for_the_body(both, second),
        orders::flattens(both, store, names, reports, all),
        orders::flattens(first, store, names, reports, left),
        orders::flattens(second, store, names, reports, right),
        laws::branches(body_of(both), body_of(first), body_of(second), p, whole, one, other),
        laws::alike(both.w, whole.alternatives@, taken),
    ensures
        orders::said_rows(store, both.w.names, all) == orders::said_rows(
            store,
            both.w.names,
            left,
        ).add(orders::said_rows(store, both.w.names, right)),
{
    assert(same_but_for_the_body(both, both));
    lemma_answers(both, both, store, names, reports, all);
    lemma_answers(both, first, store, names, reports, left);
    lemma_answers(both, second, store, names, reports, right);
    laws::law_a_disjunction_means_its_branches(
        both.w,
        body_of(both),
        body_of(first),
        body_of(second),
        p,
        whole,
        one,
        other,
        taken,
        orders::beginning(both),
    );
}

/// The order of branches is no part of a query: flattened with `b | a` in place of `a | b`, it
/// answers the same rows, each as often.
pub proof fn law_swapped_branches_answer_the_same_rows<S: FactStore>(
    written: Job,
    swapped: Job,
    p: nat,
    whole: Gen,
    turned: Gen,
    one: Seq<Alt>,
    other: Seq<Alt>,
    taken: Seq<(Symbol, Place)>,
    store: S,
    names: Names,
    reports: Seq<Report>,
    first: Compiled,
    second: Compiled,
)
    requires
        same_but_for_the_body(written, swapped),
        orders::flattens(written, store, names, reports, first),
        orders::flattens(swapped, store, names, reports, second),
        laws::swaps(body_of(written), body_of(swapped), p, whole, turned, one, other),
        laws::alike(written.w, whole.alternatives@, taken),
    ensures
        orders::said_rows(store, written.w.names, first) == orders::said_rows(
            store,
            written.w.names,
            second,
        ),
{
    assert(same_but_for_the_body(written, written));
    lemma_answers(written, written, store, names, reports, first);
    lemma_answers(written, swapped, store, names, reports, second);
    laws::law_swapped_branches_mean_the_same(
        written.w,
        body_of(written),
        body_of(swapped),
        p,
        whole,
        turned,
        one,
        other,
        taken,
        orders::beginning(written),
    );
}

} // verus!
