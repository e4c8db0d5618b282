//! What holds of every program's answers: a disjunction is its branches, a negation and
//! its assertion share the rows out, and a program of scans answers as its plan runs.
use vstd::prelude::*;

use crate::answers;
use crate::answers::{Answers, Offer};
use crate::error::ApertureError;
use crate::iter::Address;
use crate::machine;
use crate::plan::{
    Fact, FactStore, Generator, Plan, Residual, ResidualOp, SeekKey, SeekKeyPart,
};
use crate::program;
use crate::program::{Program, Source, Step, Test};

verus! {

// ---- plans ------------------------------------------------------------------

/// The rows of a level, as its answers and as its run.
proof fn lemma_scanned<S: FactStore>(
    store: S,
    body: Seq<Step>,
    scans: Seq<Generator>,
    env: Seq<Option<Fact>>,
    k: nat,
    left: Seq<Fact>,
)
    requires
        body.len() == scans.len(),
        forall|i: int|
            0 <= i < body.len() ==> program::scan_of(#[trigger] body[i]) == Some(scans[i]),
        k < body.len(),
    ensures
        ({
            let level = scans[k as int];
            let offer = answers::admitted(env, level.residuals@, left);
            let found = answers::over_offer(store, body, env, k, level.binds@, offer);
            let run = machine::run_rows(store.facts(), scans, env, k, left);
            found.rows == run.rows && found.error == run.error
        }),
    decreases body.len() - k, 0nat, left.len(),
{
    reveal_with_fuel(answers::admitted, 1);
    reveal(Answers::chain);
    let level = scans[k as int];
    let offer = answers::admitted(env, level.residuals@, left);
    answers::lemma_row(store, body, env, k, level.binds@, offer);
    if left.len() > 0 {
        lemma_scanned(store, body, scans, env, k, left.skip(1));
        if machine::admits(env, level, left[0]) == Ok::<bool, ApertureError>(true) {
            let rest = answers::admitted(env, level.residuals@, left.skip(1));
            assert(answers::past(offer) =~= rest);
            assert(offer.facts[0] == left[0]);
            lemma_runs(
                store,
                body,
                scans,
                machine::bound(env, level.binds@, left[0]),
                k + 1,
            );
        }
    }
}

/// A program of scans from step `k` on, as its answers and as its run.
proof fn lemma_runs<S: FactStore>(
    store: S,
    body: Seq<Step>,
    scans: Seq<Generator>,
    env: Seq<Option<Fact>>,
    k: nat,
)
    requires
        body.len() == scans.len(),
        forall|i: int|
            0 <= i < body.len() ==> program::scan_of(#[trigger] body[i]) == Some(scans[i]),
        k <= body.len(),
    ensures
        ({
            let found = answers::answers(store, body, env, k);
            let run = machine::run(store.facts(), scans, env, k);
            found.rows == run.rows && found.error == run.error
        }),
    decreases body.len() - k, 1nat, 0nat,
{
    answers::lemma_step(store, body, env, k);
    if k < body.len() {
        assert(program::scan_of(body[k as int]) == Some(scans[k as int]));
        if let Step::Level(level) = body[k as int] {
            let source = level.sources@[0];
            answers::lemma_source(store, body, env, k, level.sources@, level.binds@);
            answers::lemma_source(store, body, env, k, level.sources@.skip(1), level.binds@);
            let found = answers::over_offer(
                store,
                body,
                env,
                k,
                level.binds@,
                answers::offered(store, env, source),
            );
            answers::lemma_chain(found, found, found);
            answers::lemma_row(
                store,
                body,
                env,
                k,
                level.binds@,
                answers::offered(store, env, source),
            );
            reveal(answers::offered);
            if let Ok(prefix) = machine::prefix(env, scans[k as int]) {
                lemma_scanned(
                    store,
                    body,
                    scans,
                    env,
                    k,
                    machine::matching(store.facts(), prefix),
                );
            }
        }
    }
}

/// A program whose steps are scans answers exactly what its plan runs to: the same rows,
/// in the same order, ending in the same error, if in any.
pub proof fn law_a_program_answers_as_its_plan_runs<S: FactStore>(
    store: S,
    program: Program,
    plan: Plan,
)
    requires
        program::is_plan_of(plan, program),
    ensures
        ({
            let found = answers::answered(store, program);
            let run = machine::run(
                store.facts(),
                plan.body@,
                machine::unbound(plan.nvars as nat),
                0,
            );
            found.rows == run.rows && found.error == run.error
        }),
{
    lemma_runs(
        store,
        program.body@,
        plan.body@,
        machine::unbound(plan.nvars as nat),
        0,
    );
}

// ---- programs that differ in a step -----------------------------------------

/// Bodies that are the same from a step on, wherever that step stands, answer the same.
proof fn lemma_suffix<S: FactStore>(
    store: S,
    x: Seq<Step>,
    i: nat,
    y: Seq<Step>,
    j: nat,
    env: Seq<Option<Fact>>,
)
    requires
        i <= x.len(),
        j <= y.len(),
        x.skip(i as int) == y.skip(j as int),
    ensures
        answers::answers(store, x, env, i) == answers::answers(store, y, env, j),
    decreases x.len() - i, 2nat, 0nat,
{
    answers::lemma_step(store, x, env, i);
    answers::lemma_step(store, y, env, j);
    assert(x.skip(i as int).len() == x.len() - i);
    assert(y.skip(j as int).len() == y.len() - j);
    if i < x.len() {
        assert(x[i as int] == x.skip(i as int)[0]);
        assert(y[j as int] == y.skip(j as int)[0]);
        assert(x[i as int] == y[j as int]);
        assert(x.skip((i + 1) as int) =~= x.skip(i as int).skip(1));
        assert(y.skip((j + 1) as int) =~= y.skip(j as int).skip(1));
        match x[i as int] {
            Step::Level(level) => {
                lemma_suffix_sources(
                    store,
                    x,
                    i,
                    y,
                    j,
                    env,
                    level.sources@,
                    level.binds@,
                );
            },
            Step::Test(Test::Absent(sources)) => {
                lemma_suffix(store, x, i + 1, y, j + 1, env);
            },
            Step::Derive(_) => {
                lemma_suffix(store, x, i + 1, y, j + 1, env);
            },
        }
    }
}

proof fn lemma_suffix_sources<S: FactStore>(
    store: S,
    x: Seq<Step>,
    i: nat,
    y: Seq<Step>,
    j: nat,
    env: Seq<Option<Fact>>,
    sources: Seq<Source>,
    binds: Seq<Address>,
)
    requires
        i < x.len(),
        j < y.len(),
        x.skip((i + 1) as int) == y.skip((j + 1) as int),
    ensures
        answers::over_sources(store, x, env, i, sources, binds) == answers::over_sources(
            store,
            y,
            env,
            j,
            sources,
            binds,
        ),
    decreases x.len() - i, 1nat, sources.len(),
{
    answers::lemma_source(store, x, env, i, sources, binds);
    answers::lemma_source(store, y, env, j, sources, binds);
    if sources.len() > 0 {
        lemma_suffix_offer(
            store,
            x,
            i,
            y,
            j,
            env,
            binds,
            answers::offered(store, env, sources[0]),
        );
        lemma_suffix_sources(store, x, i, y, j, env, sources.skip(1), binds);
    }
}

proof fn lemma_suffix_offer<S: FactStore>(
    store: S,
    x: Seq<Step>,
    i: nat,
    y: Seq<Step>,
    j: nat,
    env: Seq<Option<Fact>>,
    binds: Seq<Address>,
    offer: Offer,
)
    requires
        i < x.len(),
        j < y.len(),
        x.skip((i + 1) as int) == y.skip((j + 1) as int),
    ensures
        answers::over_offer(store, x, env, i, binds, offer) == answers::over_offer(
            store,
            y,
            env,
            j,
            binds,
            offer,
        ),
    decreases x.len() - i, 0nat, offer.facts.len(),
{
    answers::lemma_row(store, x, env, i, binds, offer);
    answers::lemma_row(store, y, env, j, binds, offer);
    if offer.facts.len() > 0 {
        lemma_suffix(
            store,
            x,
            i + 1,
            y,
            j + 1,
            machine::bound(env, binds, offer.facts[0]),
        );
        lemma_suffix_offer(store, x, i, y, j, env, binds, answers::past(offer));
    }
}

/// A relation between three programs' answers that the loops around a step keep.
spec fn kept_by_loops(r: spec_fn(Answers, Answers, Answers) -> bool) -> bool {
    &&& forall|error: Option<ApertureError>| #[trigger]
        r(Answers::ending(error), Answers::ending(error), Answers::ending(error))
    &&& forall|a: Answers, b: Answers, c: Answers, d: Answers, e: Answers, f: Answers|
        #![trigger r(a.chain(d), b.chain(e), c.chain(f))]
        r(a, b, c) && r(d, e, f) ==> r(a.chain(d), b.chain(e), c.chain(f))
}

/// Three bodies that are the same before step `k`, where their answers are related
/// whatever their `n` registers hold.
spec fn related_at<S: FactStore>(
    store: S,
    x: Seq<Step>,
    y: Seq<Step>,
    z: Seq<Step>,
    k: nat,
    n: nat,
    r: spec_fn(Answers, Answers, Answers) -> bool,
) -> bool {
    &&& k <= x.len()
    &&& k <= y.len()
    &&& k <= z.len()
    &&& forall|i: int| 0 <= i < k ==> #[trigger] x[i] == y[i] && x[i] == z[i]
    &&& forall|env: Seq<Option<Fact>>|
        #![trigger answers::answers(store, x, env, k)]
        env.len() == n ==> r(
            answers::answers(store, x, env, k),
            answers::answers(store, y, env, k),
            answers::answers(store, z, env, k),
        )
}

/// What relates the answers from step `k` on relates them from every step before it.
proof fn lemma_loops<S: FactStore>(
    store: S,
    x: Seq<Step>,
    y: Seq<Step>,
    z: Seq<Step>,
    k: nat,
    r: spec_fn(Answers, Answers, Answers) -> bool,
    env: Seq<Option<Fact>>,
    i: nat,
)
    requires
        kept_by_loops(r),
        related_at(store, x, y, z, k, env.len(), r),
        i <= k,
    ensures
        r(
            answers::answers(store, x, env, i),
            answers::answers(store, y, env, i),
            answers::answers(store, z, env, i),
        ),
    decreases k - i, 2nat, 0nat,
{
    if i < k {
        answers::lemma_step(store, x, env, i);
        answers::lemma_step(store, y, env, i);
        answers::lemma_step(store, z, env, i);
        assert(x[i as int] == y[i as int] && x[i as int] == z[i as int]);
        match x[i as int] {
            Step::Level(level) => lemma_loops_sources(
                store,
                x,
                y,
                z,
                k,
                r,
                env,
                i,
                level.sources@,
                level.binds@,
            ),
            Step::Test(Test::Absent(sources)) => {
                lemma_loops(store, x, y, z, k, r, env, i + 1);
                assert(Answers::nothing() == Answers::ending(None));
                assert(r(Answers::ending(None), Answers::ending(None), Answers::ending(None)));
                if let Err(e) = answers::absent(store, env, sources@) {
                    assert(r(
                        Answers::ending(Some(e)),
                        Answers::ending(Some(e)),
                        Answers::ending(Some(e)),
                    ));
                }
            },
            Step::Derive(_) => lemma_loops(store, x, y, z, k, r, env, i + 1),
        }
    }
}

proof fn lemma_loops_sources<S: FactStore>(
    store: S,
    x: Seq<Step>,
    y: Seq<Step>,
    z: Seq<Step>,
    k: nat,
    r: spec_fn(Answers, Answers, Answers) -> bool,
    env: Seq<Option<Fact>>,
    i: nat,
    sources: Seq<Source>,
    binds: Seq<Address>,
)
    requires
        kept_by_loops(r),
        related_at(store, x, y, z, k, env.len(), r),
        i < k,
    ensures
        r(
            answers::over_sources(store, x, env, i, sources, binds),
            answers::over_sources(store, y, env, i, sources, binds),
            answers::over_sources(store, z, env, i, sources, binds),
        ),
    decreases k - i, 1nat, sources.len(),
{
    answers::lemma_source(store, x, env, i, sources, binds);
    answers::lemma_source(store, y, env, i, sources, binds);
    answers::lemma_source(store, z, env, i, sources, binds);
    if sources.len() > 0 {
        lemma_loops_offer(
            store,
            x,
            y,
            z,
            k,
            r,
            env,
            i,
            binds,
            answers::offered(store, env, sources[0]),
        );
        lemma_loops_sources(store, x, y, z, k, r, env, i, sources.skip(1), binds);
    } else {
        assert(Answers::nothing() == Answers::ending(None));
        assert(r(Answers::ending(None), Answers::ending(None), Answers::ending(None)));
    }
}

proof fn lemma_loops_offer<S: FactStore>(
    store: S,
    x: Seq<Step>,
    y: Seq<Step>,
    z: Seq<Step>,
    k: nat,
    r: spec_fn(Answers, Answers, Answers) -> bool,
    env: Seq<Option<Fact>>,
    i: nat,
    binds: Seq<Address>,
    offer: Offer,
)
    requires
        kept_by_loops(r),
        related_at(store, x, y, z, k, env.len(), r),
        i < k,
    ensures
        r(
            answers::over_offer(store, x, env, i, binds, offer),
            answers::over_offer(store, y, env, i, binds, offer),
            answers::over_offer(store, z, env, i, binds, offer),
        ),
    decreases k - i, 0nat, offer.facts.len(),
{
    answers::lemma_row(store, x, env, i, binds, offer);
    answers::lemma_row(store, y, env, i, binds, offer);
    answers::lemma_row(store, z, env, i, binds, offer);
    if offer.facts.len() == 0 {
        assert(r(
            Answers::ending(offer.error),
            Answers::ending(offer.error),
            Answers::ending(offer.error),
        ));
    } else {
        match machine::stray(binds, env.len(), 0) {
            Some(address) => {
                let error = Some(ApertureError::AddressOutOfBounds(address));
                assert(r(Answers::ending(error), Answers::ending(error), Answers::ending(error)));
            },
            None => {
                lemma_loops(
                    store,
                    x,
                    y,
                    z,
                    k,
                    r,
                    machine::bound(env, binds, offer.facts[0]),
                    i + 1,
                );
                lemma_loops_offer(store, x, y, z, k, r, env, i, binds, answers::past(offer));
            },
        }
    }
}

/// Alternatives, and then others, one after another.
proof fn lemma_more_sources<S: FactStore>(
    store: S,
    body: Seq<Step>,
    env: Seq<Option<Fact>>,
    k: nat,
    a: Seq<Source>,
    b: Seq<Source>,
    binds: Seq<Address>,
)
    requires
        k < body.len(),
    ensures
        answers::over_sources(store, body, env, k, a + b, binds) == answers::over_sources(
            store,
            body,
            env,
            k,
            a,
            binds,
        ).chain(answers::over_sources(store, body, env, k, b, binds)),
    decreases a.len(),
{
    let after = answers::over_sources(store, body, env, k, b, binds);
    answers::lemma_source(store, body, env, k, a, binds);
    answers::lemma_source(store, body, env, k, a + b, binds);
    if a.len() == 0 {
        assert(a + b =~= b);
        answers::lemma_chain(after, after, after);
    } else {
        assert((a + b).skip(1) =~= a.skip(1) + b);
        lemma_more_sources(store, body, env, k, a.skip(1), b, binds);
        answers::lemma_chain(
            answers::over_offer(store, body, env, k, binds, answers::offered(store, env, a[0])),
            answers::over_sources(store, body, env, k, a.skip(1), binds),
            after,
        );
    }
}

// ---- disjunctions -----------------------------------------------------------

/// Whether step `k` of a body is a level over `sources` that fills `binds`.
pub open spec fn level_at(
    body: Seq<Step>,
    k: nat,
    sources: Seq<Source>,
    binds: Seq<Address>,
) -> bool {
    &&& k < body.len()
    &&& body[k as int] matches Step::Level(level) && level.sources@ == sources && level.binds@
        == binds
}

/// Whether two programs are the same but for step `k`.
pub open spec fn same_but_for(x: Program, y: Program, k: nat) -> bool {
    &&& x.nvars == y.nvars
    &&& x.body@.len() == y.body@.len()
    &&& forall|i: int| 0 <= i < x.body@.len() && i != k ==> #[trigger] x.body@[i] == y.body@[i]
}

/// The answers of one level over two lots of alternatives are those of a level over the
/// first and of a level over the second, together.
spec fn put_together() -> spec_fn(Answers, Answers, Answers) -> bool {
    |both: Answers, first: Answers, second: Answers|
        both.error is None ==> first.error is None && second.error is None
            && both.rows.to_multiset() == first.rows.to_multiset().add(
            second.rows.to_multiset(),
        )
}

proof fn lemma_put_together()
    ensures
        kept_by_loops(put_together()),
{
    reveal(Answers::chain);
    let r = put_together();
    let none = Seq::<Seq<Option<Fact>>>::empty();
    none.to_multiset_ensures();
    assert(none.to_multiset().add(none.to_multiset()) =~= none.to_multiset());
    assert forall|a: Answers, b: Answers, c: Answers, d: Answers, e: Answers, f: Answers|
        #![trigger r(a.chain(d), b.chain(e), c.chain(f))]
        r(a, b, c) && r(d, e, f) implies r(a.chain(d), b.chain(e), c.chain(f)) by {
        vstd::seq_lib::lemma_multiset_commutative(a.rows, d.rows);
        vstd::seq_lib::lemma_multiset_commutative(b.rows, e.rows);
        vstd::seq_lib::lemma_multiset_commutative(c.rows, f.rows);
        if a.chain(d).error is None {
            assert(a.rows.to_multiset().add(d.rows.to_multiset())
                =~= b.rows.to_multiset().add(e.rows.to_multiset()).add(
                c.rows.to_multiset().add(f.rows.to_multiset()),
            ));
        }
    }
}

/// A disjunction is its branches, put together: a program with a level over the
/// alternatives of two levels answers what it answers with the one and what it answers
/// with the other, every row as often as the two together.
pub proof fn law_a_disjunction_is_its_branches<S: FactStore>(
    store: S,
    both: Program,
    first: Program,
    second: Program,
    k: nat,
    a: Seq<Source>,
    b: Seq<Source>,
    binds: Seq<Address>,
)
    requires
        level_at(both.body@, k, a + b, binds),
        level_at(first.body@, k, a, binds),
        level_at(second.body@, k, b, binds),
        same_but_for(both, first, k),
        same_but_for(both, second, k),
        answers::answered(store, both).error is None,
    ensures
        answers::answered(store, first).error is None,
        answers::answered(store, second).error is None,
        answers::answered(store, both).rows.to_multiset() == answers::answered(
            store,
            first,
        ).rows.to_multiset().add(answers::answered(store, second).rows.to_multiset()),
{
    let (x, y, z) = (both.body@, first.body@, second.body@);
    let r = put_together();
    lemma_put_together();
    assert(x.skip((k + 1) as int) =~= y.skip((k + 1) as int));
    assert(x.skip((k + 1) as int) =~= z.skip((k + 1) as int));
    assert forall|env: Seq<Option<Fact>>|
        #![trigger answers::answers(store, x, env, k)]
        r(
            answers::answers(store, x, env, k),
            answers::answers(store, y, env, k),
            answers::answers(store, z, env, k),
        ) by {
        reveal(Answers::chain);
        answers::lemma_step(store, x, env, k);
        answers::lemma_step(store, y, env, k);
        answers::lemma_step(store, z, env, k);
        lemma_more_sources(store, x, env, k, a, b, binds);
        lemma_suffix_sources(store, x, k, y, k, env, a, binds);
        lemma_suffix_sources(store, x, k, z, k, env, b, binds);
        vstd::seq_lib::lemma_multiset_commutative(
            answers::answers(store, y, env, k).rows,
            answers::answers(store, z, env, k).rows,
        );
    }
    lemma_loops(store, x, y, z, k, r, machine::unbound(both.nvars as nat), 0);
}

/// The order of branches is no part of the answer: programs that differ in it alone
/// answer the same rows, each as often.
pub proof fn law_swapped_branches_answer_the_same<S: FactStore>(
    store: S,
    written: Program,
    swapped: Program,
    k: nat,
    a: Seq<Source>,
    b: Seq<Source>,
    binds: Seq<Address>,
)
    requires
        level_at(written.body@, k, a + b, binds),
        level_at(swapped.body@, k, b + a, binds),
        same_but_for(written, swapped, k),
        answers::answered(store, written).error is None,
        answers::answered(store, swapped).error is None,
    ensures
        answers::answered(store, written).rows.to_multiset() == answers::answered(
            store,
            swapped,
        ).rows.to_multiset(),
{
    let (x, y) = (written.body@, swapped.body@);
    let r = |one: Answers, other: Answers, again: Answers|
        one.error is None && other.error is None ==> one.rows.to_multiset()
            == other.rows.to_multiset();
    reveal(Answers::chain);
    assert forall|a: Answers, b: Answers, c: Answers, d: Answers, e: Answers, f: Answers|
        #![trigger r(a.chain(d), b.chain(e), c.chain(f))]
        r(a, b, c) && r(d, e, f) implies r(a.chain(d), b.chain(e), c.chain(f)) by {
        vstd::seq_lib::lemma_multiset_commutative(a.rows, d.rows);
        vstd::seq_lib::lemma_multiset_commutative(b.rows, e.rows);
    }
    assert(x.skip((k + 1) as int) =~= y.skip((k + 1) as int));
    assert forall|env: Seq<Option<Fact>>|
        #![trigger answers::answers(store, x, env, k)]
        r(
            answers::answers(store, x, env, k),
            answers::answers(store, y, env, k),
            answers::answers(store, x, env, k),
        ) by {
        answers::lemma_step(store, x, env, k);
        answers::lemma_step(store, y, env, k);
        lemma_more_sources(store, x, env, k, a, b, binds);
        lemma_more_sources(store, y, env, k, b, a, binds);
        lemma_suffix_sources(store, x, k, y, k, env, a, binds);
        lemma_suffix_sources(store, x, k, y, k, env, b, binds);
        let one = answers::over_sources(store, x, env, k, a, binds);
        let other = answers::over_sources(store, x, env, k, b, binds);
        vstd::seq_lib::lemma_multiset_commutative(one.rows, other.rows);
        vstd::seq_lib::lemma_multiset_commutative(other.rows, one.rows);
        assert(one.rows.to_multiset().add(other.rows.to_multiset())
            =~= other.rows.to_multiset().add(one.rows.to_multiset()));
    }
    lemma_loops(store, x, y, x, k, r, machine::unbound(written.nvars as nat), 0);
}

// ---- negations --------------------------------------------------------------

/// Whether step `k` of a body is a test that `sources` have no row.
pub open spec fn test_at(body: Seq<Step>, k: nat, sources: Seq<Source>) -> bool {
    &&& k < body.len()
    &&& body[k as int] matches Step::Test(Test::Absent(tested)) && tested@ == sources
}

/// Whether two bodies are the same before step `k`, and the one from `i` on as the other
/// from `j` on.
pub open spec fn same_around(x: Seq<Step>, i: nat, y: Seq<Step>, j: nat, k: nat) -> bool {
    &&& k <= i <= x.len()
    &&& k <= j <= y.len()
    &&& x.take(k as int) == y.take(k as int)
    &&& x.skip(i as int) == y.skip(j as int)
}

/// None of some sources has a row, and then none of others.
proof fn lemma_absent_more<S: FactStore>(
    store: S,
    env: Seq<Option<Fact>>,
    a: Seq<Source>,
    b: Seq<Source>,
)
    ensures
        answers::absent(store, env, a + b) == (match answers::absent(store, env, a) {
            Ok(true) => answers::absent(store, env, b),
            other => other,
        }),
    decreases a.len(),
{
    if a.len() == 0 {
        assert(a + b =~= b);
    } else {
        assert((a + b).skip(1) =~= a.skip(1) + b);
        lemma_absent_more(store, env, a.skip(1), b);
    }
}

/// Programs whose answers from step `k` on are equal answer the same.
proof fn lemma_equal_from<S: FactStore>(store: S, x: Program, y: Program, k: nat)
    requires
        x.nvars == y.nvars,
        k <= x.body@.len(),
        k <= y.body@.len(),
        x.body@.take(k as int) == y.body@.take(k as int),
        forall|env: Seq<Option<Fact>>|
            #![trigger answers::answers(store, x.body@, env, k)]
            answers::answers(store, x.body@, env, k) == answers::answers(store, y.body@, env, k),
    ensures
        answers::answered(store, x) == answers::answered(store, y),
{
    let r = |one: Answers, other: Answers, again: Answers| one == other;
    assert forall|i: int| 0 <= i < k implies #[trigger] x.body@[i] == y.body@[i] by {
        let before = x.body@.take(k as int);
        assert(before[i] == x.body@[i]);
        assert(y.body@.take(k as int)[i] == y.body@[i]);
    }
    lemma_loops(store, x.body@, y.body@, x.body@, k, r, machine::unbound(x.nvars as nat), 0);
}

/// To deny a disjunction is to deny each branch: a test of two lots of sources answers
/// exactly as a test of the first and then a test of the second.
pub proof fn law_de_morgan<S: FactStore>(
    store: S,
    together: Program,
    apart: Program,
    k: nat,
    a: Seq<Source>,
    b: Seq<Source>,
)
    requires
        together.nvars == apart.nvars,
        test_at(together.body@, k, a + b),
        test_at(apart.body@, k, a),
        test_at(apart.body@, k + 1, b),
        same_around(together.body@, k + 1, apart.body@, k + 2, k),
    ensures
        answers::answered(store, together) == answers::answered(store, apart),
{
    let (x, y) = (together.body@, apart.body@);
    assert forall|env: Seq<Option<Fact>>|
        #![trigger answers::answers(store, x, env, k)]
        answers::answers(store, x, env, k) == answers::answers(store, y, env, k) by {
        answers::lemma_step(store, x, env, k);
        answers::lemma_step(store, y, env, k);
        answers::lemma_step(store, y, env, k + 1);
        lemma_absent_more(store, env, a, b);
        lemma_suffix(store, x, k + 1, y, k + 2, env);
    }
    lemma_equal_from(store, together, apart, k);
}

/// To deny a thing twice is to deny it once.
pub proof fn law_denying_twice_is_denying_once<S: FactStore>(
    store: S,
    once: Program,
    twice: Program,
    k: nat,
    sources: Seq<Source>,
)
    requires
        once.nvars == twice.nvars,
        test_at(once.body@, k, sources),
        test_at(twice.body@, k, sources),
        test_at(twice.body@, k + 1, sources),
        same_around(once.body@, k + 1, twice.body@, k + 2, k),
    ensures
        answers::answered(store, once) == answers::answered(store, twice),
{
    let (x, y) = (once.body@, twice.body@);
    assert forall|env: Seq<Option<Fact>>|
        #![trigger answers::answers(store, x, env, k)]
        answers::answers(store, x, env, k) == answers::answers(store, y, env, k) by {
        answers::lemma_step(store, x, env, k);
        answers::lemma_step(store, y, env, k);
        answers::lemma_step(store, y, env, k + 1);
        lemma_suffix(store, x, k + 1, y, k + 2, env);
    }
    lemma_equal_from(store, once, twice, k);
}

/// To deny what has no rows at all changes nothing.
pub proof fn law_denying_nothing_changes_nothing<S: FactStore>(
    store: S,
    with: Program,
    without: Program,
    k: nat,
)
    requires
        with.nvars == without.nvars,
        test_at(with.body@, k, Seq::empty()),
        same_around(with.body@, k + 1, without.body@, k, k),
    ensures
        answers::answered(store, with) == answers::answered(store, without),
{
    let (x, y) = (with.body@, without.body@);
    assert forall|env: Seq<Option<Fact>>|
        #![trigger answers::answers(store, x, env, k)]
        answers::answers(store, x, env, k) == answers::answers(store, y, env, k) by {
        answers::lemma_step(store, x, env, k);
        lemma_suffix(store, x, k + 1, y, k, env);
    }
    lemma_equal_from(store, with, without, k);
}

/// A branch that has no rows drops out of a disjunction: a level over no sources answers
/// nothing, and so does every program with one that is reached.
pub proof fn law_a_level_without_sources_answers_nothing<S: FactStore>(
    store: S,
    program: Program,
    binds: Seq<Address>,
)
    requires
        level_at(program.body@, 0, Seq::empty(), binds),
    ensures
        answers::answered(store, program) == Answers::nothing(),
{
    let env = machine::unbound(program.nvars as nat);
    answers::lemma_step(store, program.body@, env, 0);
    answers::lemma_source(store, program.body@, env, 0, Seq::empty(), binds);
}

// ---- a negation and its assertion -------------------------------------------

/// Whether a source mentions a register.
pub open spec fn source_mentions(source: Source, r: Address) -> bool {
    ||| exists|i: int|
        0 <= i < source.filters()@.len() && machine::op_reads(
            (#[trigger] source.filters()@[i]).op,
            r,
        )
    ||| match source {
        Source::Seek { access, .. } => access.seek_key matches SeekKey::Composite(parts) && exists|
            i: int,
        |
            0 <= i < parts@.len() && machine::part_reads(#[trigger] parts@[i], r),
        Source::Fetch { reference, .. } => reference == r,
    }
}

/// Whether some of the sources mention a register.
pub open spec fn sources_mention(sources: Seq<Source>, r: Address) -> bool {
    exists|i: int| 0 <= i < sources.len() && source_mentions(#[trigger] sources[i], r)
}

/// Whether a step mentions a register.
pub open spec fn step_mentions(step: Step, r: Address) -> bool {
    match step {
        Step::Level(level) => sources_mention(level.sources@, r) || level.binds@.contains(r),
        Step::Test(Test::Absent(sources)) => sources_mention(sources@, r),
        Step::Derive(derived) => derived.bind == r,
    }
}

/// Whether no step from `k` on mentions a register.
pub open spec fn ignored(body: Seq<Step>, k: nat, r: Address) -> bool {
    forall|i: int| k <= i < body.len() ==> !step_mentions(#[trigger] body[i], r)
}

/// Registers that hold the same but for one.
pub open spec fn same_but(r: Address, a: Seq<Option<Fact>>, b: Seq<Option<Fact>>) -> bool {
    &&& a.len() == b.len()
    &&& forall|i: int| 0 <= i < a.len() && i != r.0 ==> #[trigger] a[i] == b[i]
}

/// Answers row by row the same but for one register.
spec fn alike(r: Address, a: Answers, b: Answers) -> bool {
    &&& a.error == b.error
    &&& a.rows.len() == b.rows.len()
    &&& forall|i: int| 0 <= i < a.rows.len() ==> same_but(r, #[trigger] a.rows[i], b.rows[i])
}

proof fn lemma_alike_chain(r: Address, a: Answers, b: Answers, c: Answers, d: Answers)
    requires
        alike(r, a, b),
        alike(r, c, d),
    ensures
        alike(r, a.chain(c), b.chain(d)),
{
    reveal(Answers::chain);
    let (x, y) = (a.chain(c), b.chain(d));
    assert forall|i: int| 0 <= i < x.rows.len() implies same_but(r, #[trigger] x.rows[i], y.rows[i])
        by {
        if i < a.rows.len() {
            assert(x.rows[i] == a.rows[i]);
            assert(y.rows[i] == b.rows[i]);
        } else {
            assert(x.rows[i] == c.rows[i - a.rows.len()]);
            assert(y.rows[i] == d.rows[i - a.rows.len()]);
        }
    }
}

proof fn lemma_held_alike(r: Address, a: Seq<Option<Fact>>, b: Seq<Option<Fact>>, from: Address)
    requires
        same_but(r, a, b),
        from != r,
    ensures
        machine::held(a, from) == machine::held(b, from),
{
    if from.0 < a.len() {
        assert(a[from.0 as int] == b[from.0 as int]);
    }
}

proof fn lemma_parts_alike(
    r: Address,
    a: Seq<Option<Fact>>,
    b: Seq<Option<Fact>>,
    parts: Seq<SeekKeyPart>,
    k: nat,
)
    requires
        same_but(r, a, b),
        forall|i: int| 0 <= i < parts.len() ==> !machine::part_reads(#[trigger] parts[i], r),
        k <= parts.len(),
    ensures
        machine::parts_bytes(a, parts, k) == machine::parts_bytes(b, parts, k),
    decreases k,
{
    if k > 0 {
        lemma_parts_alike(r, a, b, parts, (k - 1) as nat);
        assert(!machine::part_reads(parts[k - 1], r));
        match parts[k - 1] {
            SeekKeyPart::Bytes(_) => {},
            SeekKeyPart::RegisterField { address, .. } => lemma_held_alike(r, a, b, address),
            SeekKeyPart::RegisterFactId(address) => lemma_held_alike(r, a, b, address),
        }
    }
}

proof fn lemma_passes_alike(
    r: Address,
    a: Seq<Option<Fact>>,
    b: Seq<Option<Fact>>,
    filters: Seq<Residual>,
    fact: Fact,
    k: nat,
)
    requires
        same_but(r, a, b),
        forall|i: int| 0 <= i < filters.len() ==> !machine::op_reads((#[trigger] filters[i]).op, r),
        k <= filters.len(),
    ensures
        machine::passes(a, filters, fact, k) == machine::passes(b, filters, fact, k),
    decreases k,
{
    if k > 0 {
        lemma_passes_alike(r, a, b, filters, fact, (k - 1) as nat);
        assert(!machine::op_reads(filters[k - 1].op, r));
        match filters[k - 1].op {
            ResidualOp::EqRegisterField { address, .. } => lemma_held_alike(r, a, b, address),
            ResidualOp::EqRegisterFactId(address) => lemma_held_alike(r, a, b, address),
            _ => {},
        }
    }
}

proof fn lemma_admitted_alike(
    r: Address,
    a: Seq<Option<Fact>>,
    b: Seq<Option<Fact>>,
    filters: Seq<Residual>,
    left: Seq<Fact>,
)
    requires
        same_but(r, a, b),
        forall|i: int| 0 <= i < filters.len() ==> !machine::op_reads((#[trigger] filters[i]).op, r),
    ensures
        answers::admitted(a, filters, left) == answers::admitted(b, filters, left),
    decreases left.len(),
{
    reveal_with_fuel(answers::admitted, 1);
    if left.len() > 0 {
        lemma_passes_alike(r, a, b, filters, left[0], filters.len());
        lemma_admitted_alike(r, a, b, filters, left.skip(1));
    }
}

/// A source that does not mention a register offers the same whatever it holds.
proof fn lemma_offered_alike<S: FactStore>(
    store: S,
    r: Address,
    a: Seq<Option<Fact>>,
    b: Seq<Option<Fact>>,
    source: Source,
)
    requires
        same_but(r, a, b),
        !source_mentions(source, r),
    ensures
        answers::offered(store, a, source) == answers::offered(store, b, source),
{
    reveal(answers::offered);
    match source {
        Source::Seek { access, .. } => {
            if let SeekKey::Composite(parts) = access.seek_key {
                lemma_parts_alike(r, a, b, parts@, parts@.len());
            }
        },
        Source::Fetch { reference, .. } => lemma_held_alike(r, a, b, reference),
    }
    if let Ok(left) = answers::candidates(store, a, source) {
        lemma_admitted_alike(r, a, b, source.filters()@, left);
    }
}

proof fn lemma_absent_alike<S: FactStore>(
    store: S,
    r: Address,
    a: Seq<Option<Fact>>,
    b: Seq<Option<Fact>>,
    sources: Seq<Source>,
)
    requires
        same_but(r, a, b),
        !sources_mention(sources, r),
    ensures
        answers::absent(store, a, sources) == answers::absent(store, b, sources),
    decreases sources.len(),
{
    if sources.len() > 0 {
        assert(!source_mentions(sources[0], r));
        lemma_offered_alike(store, r, a, b, sources[0]);
        let rest = sources.skip(1);
        assert forall|i: int| 0 <= i < rest.len() implies !source_mentions(#[trigger] rest[i], r) by {
            assert(rest[i] == sources[i + 1]);
        }
        lemma_absent_alike(store, r, a, b, rest);
    }
}

/// Steps that do not mention a register answer the same whatever it holds.
proof fn lemma_ignored<S: FactStore>(
    store: S,
    body: Seq<Step>,
    k: nat,
    r: Address,
    a: Seq<Option<Fact>>,
    b: Seq<Option<Fact>>,
)
    requires
        same_but(r, a, b),
        ignored(body, k, r),
    ensures
        alike(r, answers::answers(store, body, a, k), answers::answers(store, body, b, k)),
    decreases body.len() - k, 2nat, 0nat,
{
    answers::lemma_step(store, body, a, k);
    answers::lemma_step(store, body, b, k);
    if k < body.len() {
        assert(!step_mentions(body[k as int], r));
        match body[k as int] {
            Step::Level(level) => lemma_ignored_sources(
                store,
                body,
                k,
                r,
                a,
                b,
                level.sources@,
                level.binds@,
            ),
            Step::Test(Test::Absent(sources)) => {
                lemma_absent_alike(store, r, a, b, sources@);
                lemma_ignored(store, body, k + 1, r, a, b);
            },
            Step::Derive(_) => lemma_ignored(store, body, k + 1, r, a, b),
        }
    }
}

proof fn lemma_ignored_sources<S: FactStore>(
    store: S,
    body: Seq<Step>,
    k: nat,
    r: Address,
    a: Seq<Option<Fact>>,
    b: Seq<Option<Fact>>,
    sources: Seq<Source>,
    binds: Seq<Address>,
)
    requires
        same_but(r, a, b),
        ignored(body, k, r),
        k < body.len(),
        !sources_mention(sources, r),
    ensures
        alike(
            r,
            answers::over_sources(store, body, a, k, sources, binds),
            answers::over_sources(store, body, b, k, sources, binds),
        ),
    decreases body.len() - k, 1nat, sources.len(),
{
    answers::lemma_source(store, body, a, k, sources, binds);
    answers::lemma_source(store, body, b, k, sources, binds);
    if sources.len() > 0 {
        assert(!source_mentions(sources[0], r));
        lemma_offered_alike(store, r, a, b, sources[0]);
        let offer = answers::offered(store, a, sources[0]);
        let rest = sources.skip(1);
        assert forall|i: int| 0 <= i < rest.len() implies !source_mentions(#[trigger] rest[i], r) by {
            assert(rest[i] == sources[i + 1]);
        }
        lemma_ignored_offer(store, body, k, r, a, b, binds, offer);
        lemma_ignored_sources(store, body, k, r, a, b, rest, binds);
        lemma_alike_chain(
            r,
            answers::over_offer(store, body, a, k, binds, offer),
            answers::over_offer(store, body, b, k, binds, offer),
            answers::over_sources(store, body, a, k, rest, binds),
            answers::over_sources(store, body, b, k, rest, binds),
        );
    }
}

proof fn lemma_ignored_offer<S: FactStore>(
    store: S,
    body: Seq<Step>,
    k: nat,
    r: Address,
    a: Seq<Option<Fact>>,
    b: Seq<Option<Fact>>,
    binds: Seq<Address>,
    offer: Offer,
)
    requires
        same_but(r, a, b),
        ignored(body, k, r),
        k < body.len(),
    ensures
        alike(
            r,
            answers::over_offer(store, body, a, k, binds, offer),
            answers::over_offer(store, body, b, k, binds, offer),
        ),
    decreases body.len() - k, 0nat, offer.facts.len(),
{
    answers::lemma_row(store, body, a, k, binds, offer);
    answers::lemma_row(store, body, b, k, binds, offer);
    if offer.facts.len() > 0 {
        let next = machine::bound(a, binds, offer.facts[0]);
        let other = machine::bound(b, binds, offer.facts[0]);
        assert(same_but(r, next, other));
        lemma_ignored(store, body, k + 1, r, next, other);
        lemma_ignored_offer(store, body, k, r, a, b, binds, answers::past(offer));
        if machine::stray(binds, a.len(), 0) is None {
            lemma_alike_chain(
                r,
                answers::answers(store, body, next, k + 1),
                answers::answers(store, body, other, k + 1),
                answers::over_offer(store, body, a, k, binds, answers::past(offer)),
                answers::over_offer(store, body, b, k, binds, answers::past(offer)),
            );
        }
    }
}

/// The rows marked, in order.
pub open spec fn marked(rows: Seq<Seq<Option<Fact>>>, marks: Seq<bool>) -> Seq<Seq<Option<Fact>>>
    decreases rows.len(),
{
    if rows.len() == 0 {
        Seq::empty()
    } else if marks[rows.len() - 1] {
        marked(rows.drop_last(), marks).push(rows.last())
    } else {
        marked(rows.drop_last(), marks)
    }
}

/// Whether a row is, but for register `r`, one of some rows.
pub open spec fn among(r: Address, row: Seq<Option<Fact>>, rows: Seq<Seq<Option<Fact>>>) -> bool {
    exists|j: int| 0 <= j < rows.len() && same_but(r, row, #[trigger] rows[j])
}

/// Whether a row is, but for register `r`, one of some rows that are not marked.
pub open spec fn unmarked(
    r: Address,
    row: Seq<Option<Fact>>,
    rows: Seq<Seq<Option<Fact>>>,
    marks: Seq<bool>,
) -> bool {
    exists|i: int| 0 <= i < rows.len() && !marks[i] && same_but(r, #[trigger] rows[i], row)
}

/// The rows shared out: the ones marked are denied nothing, and the others are, but for
/// register `r`, exactly the rows asserted.
pub open spec fn shared_out(
    r: Address,
    marks: Seq<bool>,
    denied: Seq<Seq<Option<Fact>>>,
    plain: Seq<Seq<Option<Fact>>>,
    asserted: Seq<Seq<Option<Fact>>>,
) -> bool {
    &&& marks.len() == plain.len()
    &&& denied == marked(plain, marks)
    &&& forall|i: int|
        0 <= i < plain.len() && !marks[i] ==> among(r, #[trigger] plain[i], asserted)
    &&& forall|j: int|
        0 <= j < asserted.len() ==> unmarked(r, #[trigger] asserted[j], plain, marks)
}

spec fn split(r: Address) -> spec_fn(Answers, Answers, Answers) -> bool {
    |denied: Answers, plain: Answers, asserted: Answers|
        denied.error is None && plain.error is None && asserted.error is None ==> exists|
            marks: Seq<bool>,
        | #[trigger]
            shared_out(r, marks, denied.rows, plain.rows, asserted.rows)
}

proof fn lemma_marked_more(
    rows: Seq<Seq<Option<Fact>>>,
    more: Seq<Seq<Option<Fact>>>,
    marks: Seq<bool>,
    others: Seq<bool>,
)
    requires
        rows.len() == marks.len(),
        more.len() == others.len(),
    ensures
        marked(rows + more, marks + others) == marked(rows, marks) + marked(more, others),
    decreases more.len(),
{
    if more.len() == 0 {
        assert(rows + more =~= rows);
        assert(marks + others =~= marks);
        assert(marked(rows, marks) + marked(more, others) =~= marked(rows, marks));
    } else {
        let (fewer, left) = (more.drop_last(), others.drop_last());
        lemma_marked_more(rows, fewer, marks, left);
        let (all, both) = (rows + more, marks + others);
        assert(all.drop_last() =~= rows + fewer);
        lemma_marks_alike(rows + fewer, marks + left, both);
        lemma_marks_alike(fewer, left, others);
        assert(all.last() == more.last());
        assert(marked(all, both) =~= marked(rows, marks) + marked(more, others));
    }
}

/// Only the marks of the rows count.
proof fn lemma_marks_alike(rows: Seq<Seq<Option<Fact>>>, a: Seq<bool>, b: Seq<bool>)
    requires
        rows.len() <= a.len(),
        rows.len() <= b.len(),
        forall|i: int| 0 <= i < rows.len() ==> a[i] == b[i],
    ensures
        marked(rows, a) == marked(rows, b),
    decreases rows.len(),
{
    if rows.len() > 0 {
        lemma_marks_alike(rows.drop_last(), a, b);
    }
}

proof fn lemma_all_marked(rows: Seq<Seq<Option<Fact>>>, marks: Seq<bool>, mark: bool)
    requires
        rows.len() <= marks.len(),
        forall|i: int| 0 <= i < rows.len() ==> marks[i] == mark,
    ensures
        mark ==> marked(rows, marks) == rows,
        !mark ==> marked(rows, marks) == Seq::<Seq<Option<Fact>>>::empty(),
    decreases rows.len(),
{
    if rows.len() > 0 {
        lemma_all_marked(rows.drop_last(), marks, mark);
        assert(rows.drop_last().push(rows.last()) =~= rows);
    }
}

/// Rows shared out, and then others.
proof fn lemma_shared_more(
    r: Address,
    m: Seq<bool>,
    n: Seq<bool>,
    a: Seq<Seq<Option<Fact>>>,
    b: Seq<Seq<Option<Fact>>>,
    c: Seq<Seq<Option<Fact>>>,
    d: Seq<Seq<Option<Fact>>>,
    e: Seq<Seq<Option<Fact>>>,
    f: Seq<Seq<Option<Fact>>>,
)
    requires
        shared_out(r, m, a, b, c),
        shared_out(r, n, d, e, f),
    ensures
        shared_out(r, m + n, a + d, b + e, c + f),
{
    lemma_marked_more(b, e, m, n);
    let (marks, plain, asserted) = (m + n, b + e, c + f);
    assert forall|i: int| 0 <= i < plain.len() && !marks[i] implies among(
        r,
        #[trigger] plain[i],
        asserted,
    ) by {
        if i < b.len() {
            assert(plain[i] == b[i]);
            let j = choose|j: int| 0 <= j < c.len() && same_but(r, b[i], #[trigger] c[j]);
            assert(asserted[j] == c[j]);
        } else {
            let at = i - b.len();
            assert(plain[i] == e[at]);
            let j = choose|j: int| 0 <= j < f.len() && same_but(r, e[at], #[trigger] f[j]);
            assert(asserted[c.len() + j] == f[j]);
        }
    }
    assert forall|j: int| 0 <= j < asserted.len() implies unmarked(
        r,
        #[trigger] asserted[j],
        plain,
        marks,
    ) by {
        if j < c.len() {
            assert(asserted[j] == c[j]);
            assert(unmarked(r, c[j], b, m));
            let i = choose|i: int|
                0 <= i < b.len() && !m[i] && same_but(r, #[trigger] b[i], c[j]);
            assert(plain[i] == b[i]);
        } else {
            let at = j - c.len();
            assert(asserted[j] == f[at]);
            assert(unmarked(r, f[at], e, n));
            let i = choose|i: int|
                0 <= i < e.len() && !n[i] && same_but(r, #[trigger] e[i], f[at]);
            assert(plain[b.len() + i] == e[i]);
        }
    }
}

proof fn lemma_split_kept(r: Address)
    ensures
        kept_by_loops(split(r)),
{
    reveal(Answers::chain);
    let p = split(r);
    assert forall|error: Option<ApertureError>| #[trigger]
        p(Answers::ending(error), Answers::ending(error), Answers::ending(error)) by {
        let none = Seq::<Seq<Option<Fact>>>::empty();
        assert(Answers::ending(error).rows == none);
        assert(shared_out(
            r,
            Seq::<bool>::empty(),
            Answers::ending(error).rows,
            Answers::ending(error).rows,
            Answers::ending(error).rows,
        ));
    }
    assert forall|a: Answers, b: Answers, c: Answers, d: Answers, e: Answers, f: Answers|
        #![trigger p(a.chain(d), b.chain(e), c.chain(f))]
        p(a, b, c) && p(d, e, f) implies p(a.chain(d), b.chain(e), c.chain(f)) by {
        if a.chain(d).error is None && b.chain(e).error is None && c.chain(f).error is None {
            let m = choose|m: Seq<bool>| #[trigger] shared_out(r, m, a.rows, b.rows, c.rows);
            let n = choose|n: Seq<bool>| #[trigger] shared_out(r, n, d.rows, e.rows, f.rows);
            lemma_shared_more(r, m, n, a.rows, b.rows, c.rows, d.rows, e.rows, f.rows);
            assert(shared_out(
                r,
                m + n,
                a.chain(d).rows,
                b.chain(e).rows,
                c.chain(f).rows,
            ));
        }
    }
}

/// Whether a row is, but for register `r`, one of some rows.
spec fn stems(r: Address, row: Seq<Option<Fact>>, rows: Seq<Seq<Option<Fact>>>) -> bool {
    exists|i: int| 0 <= i < rows.len() && same_but(r, #[trigger] rows[i], row)
}

/// What asserting one alternative comes to, `plain` being what there is without it: rows
/// of `plain` alone, and every one of them where there is a fact to assert.
proof fn lemma_asserted_offer<S: FactStore>(
    store: S,
    body: Seq<Step>,
    env: Seq<Option<Fact>>,
    k: nat,
    r: Address,
    offer: Offer,
    plain: Answers,
)
    requires
        k < body.len(),
        env.len() <= usize::MAX,
        ignored(body, k + 1, r),
        plain == answers::answers(store, body, env, k + 1),
    ensures
        ({
            let found = answers::over_offer(store, body, env, k, seq![r], offer);
            found.error is None ==> {
                &&& offer.error is None
                &&& offer.facts.len() == 0 ==> found.rows.len() == 0
                &&& forall|j: int|
                    0 <= j < found.rows.len() ==> stems(r, #[trigger] found.rows[j], plain.rows)
                &&& offer.facts.len() > 0 ==> forall|i: int|
                    0 <= i < plain.rows.len() ==> among(r, #[trigger] plain.rows[i], found.rows)
            }
        }),
    decreases offer.facts.len(),
{
    answers::lemma_row(store, body, env, k, seq![r], offer);
    let found = answers::over_offer(store, body, env, k, seq![r], offer);
    if offer.facts.len() > 0 && found.error is None {
        reveal(Answers::chain);
        let next = machine::bound(env, seq![r], offer.facts[0]);
        assert forall|i: int| 0 <= i < env.len() && i != r.0 implies #[trigger] env[i] == next[i] by {
            assert(Address(i as usize) != r);
        }
        lemma_ignored(store, body, k + 1, r, env, next);
        lemma_asserted_offer(store, body, env, k, r, answers::past(offer), plain);
        let part = answers::answers(store, body, next, k + 1);
        let rest = answers::over_offer(store, body, env, k, seq![r], answers::past(offer));
        assert(found.rows == part.rows + rest.rows);
        assert forall|j: int| 0 <= j < found.rows.len() implies stems(
            r,
            #[trigger] found.rows[j],
            plain.rows,
        ) by {
            if j < part.rows.len() {
                assert(found.rows[j] == part.rows[j]);
                assert(same_but(r, plain.rows[j], found.rows[j]));
            } else {
                assert(found.rows[j] == rest.rows[j - part.rows.len()]);
            }
        }
        assert forall|i: int| 0 <= i < plain.rows.len() implies among(
            r,
            #[trigger] plain.rows[i],
            found.rows,
        ) by {
            assert(found.rows[i] == part.rows[i]);
            assert(same_but(r, plain.rows[i], found.rows[i]));
        }
    }
}

/// What asserting some alternatives comes to.
proof fn lemma_asserted<S: FactStore>(
    store: S,
    body: Seq<Step>,
    env: Seq<Option<Fact>>,
    k: nat,
    r: Address,
    sources: Seq<Source>,
    plain: Answers,
)
    requires
        k < body.len(),
        env.len() <= usize::MAX,
        ignored(body, k + 1, r),
        plain == answers::answers(store, body, env, k + 1),
    ensures
        ({
            let found = answers::over_sources(store, body, env, k, sources, seq![r]);
            let none = answers::absent(store, env, sources);
            found.error is None ==> {
                &&& none == Ok::<bool, ApertureError>(true) ==> found.rows.len() == 0
                &&& forall|j: int|
                    0 <= j < found.rows.len() ==> stems(r, #[trigger] found.rows[j], plain.rows)
                &&& none == Ok::<bool, ApertureError>(false) ==> forall|i: int|
                    0 <= i < plain.rows.len() ==> among(r, #[trigger] plain.rows[i], found.rows)
            }
        }),
    decreases sources.len(),
{
    answers::lemma_source(store, body, env, k, sources, seq![r]);
    let found = answers::over_sources(store, body, env, k, sources, seq![r]);
    if sources.len() > 0 && found.error is None {
        reveal(Answers::chain);
        let offer = answers::offered(store, env, sources[0]);
        let part = answers::over_offer(store, body, env, k, seq![r], offer);
        let rest = answers::over_sources(store, body, env, k, sources.skip(1), seq![r]);
        lemma_asserted_offer(store, body, env, k, r, offer, plain);
        lemma_asserted(store, body, env, k, r, sources.skip(1), plain);
        assert(found.rows == part.rows + rest.rows);
        assert forall|j: int| 0 <= j < found.rows.len() implies stems(
            r,
            #[trigger] found.rows[j],
            plain.rows,
        ) by {
            if j < part.rows.len() {
                assert(found.rows[j] == part.rows[j]);
            } else {
                assert(found.rows[j] == rest.rows[j - part.rows.len()]);
            }
        }
        if answers::absent(store, env, sources) == Ok::<bool, ApertureError>(false) {
            assert forall|i: int| 0 <= i < plain.rows.len() implies among(
                r,
                #[trigger] plain.rows[i],
                found.rows,
            ) by {
                if offer.facts.len() > 0 {
                    assert(among(r, plain.rows[i], part.rows));
                    let j = choose|j: int|
                        0 <= j < part.rows.len() && same_but(
                            r,
                            plain.rows[i],
                            #[trigger] part.rows[j],
                        );
                    assert(found.rows[j] == part.rows[j]);
                } else {
                    assert(among(r, plain.rows[i], rest.rows));
                    let j = choose|j: int|
                        0 <= j < rest.rows.len() && same_but(
                            r,
                            plain.rows[i],
                            #[trigger] rest.rows[j],
                        );
                    assert(found.rows[part.rows.len() + j] == rest.rows[j]);
                }
            }
        }
    }
}

/// A negation and its assertion share the rows out. Of one program written three ways,
/// with a test that some sources have no row, with neither, and with a level over those
/// sources that fills a register nothing else mentions: the rows of the second are
/// marked so that the marked ones are the rows of the first, in order, and the others
/// are, but for that register, the rows of the third. So a negation only removes rows,
/// removes exactly those its assertion answers, and nothing falls between the two.
pub proof fn law_a_negation_and_its_assertion_share_the_rows_out<S: FactStore>(
    store: S,
    denied: Program,
    plain: Program,
    asserted: Program,
    k: nat,
    sources: Seq<Source>,
    r: Address,
)
    requires
        denied.nvars == plain.nvars,
        denied.nvars == asserted.nvars,
        test_at(denied.body@, k, sources),
        level_at(asserted.body@, k, sources, seq![r]),
        same_around(denied.body@, k + 1, plain.body@, k, k),
        same_around(asserted.body@, k + 1, plain.body@, k, k),
        ignored(plain.body@, 0, r),
        answers::answered(store, denied).error is None,
        answers::answered(store, plain).error is None,
        answers::answered(store, asserted).error is None,
    ensures
        exists|marks: Seq<bool>| #[trigger]
            shared_out(
                r,
                marks,
                answers::answered(store, denied).rows,
                answers::answered(store, plain).rows,
                answers::answered(store, asserted).rows,
            ),
{
    let (x, y, z) = (denied.body@, plain.body@, asserted.body@);
    let p = split(r);
    lemma_split_kept(r);
    assert forall|i: int| 0 <= i < k implies #[trigger] x[i] == y[i] && x[i] == z[i] by {
        assert(x.take(k as int)[i] == x[i]);
        assert(y.take(k as int)[i] == y[i]);
        assert(z.take(k as int)[i] == z[i]);
    }
    assert(ignored(z, k + 1, r)) by {
        assert(z.skip((k + 1) as int).len() == z.len() - k - 1);
        assert(y.skip(k as int).len() == y.len() - k);
        assert forall|i: int| k + 1 <= i < z.len() implies !step_mentions(#[trigger] z[i], r) by {
            assert(z[i] == z.skip((k + 1) as int)[i - k - 1]);
            assert(y[i - 1] == y.skip(k as int)[i - k - 1]);
            assert(!step_mentions(y[i - 1], r));
        }
    }
    assert forall|env: Seq<Option<Fact>>|
        #![trigger answers::answers(store, x, env, k)]
        env.len() == denied.nvars implies p(
            answers::answers(store, x, env, k),
            answers::answers(store, y, env, k),
            answers::answers(store, z, env, k),
        ) by {
        answers::lemma_step(store, x, env, k);
        answers::lemma_step(store, z, env, k);
        lemma_suffix(store, x, k + 1, y, k, env);
        lemma_suffix(store, z, k + 1, y, k, env);
        let there = answers::answers(store, y, env, k);
        lemma_asserted(store, z, env, k, r, sources, there);
        let (a, c) = (answers::answers(store, x, env, k), answers::answers(store, z, env, k));
        if a.error is None && there.error is None && c.error is None {
            let mark = answers::absent(store, env, sources) == Ok::<bool, ApertureError>(true);
            let marks = Seq::new(there.rows.len(), |i: int| mark);
            lemma_all_marked(there.rows, marks, mark);
            if !mark {
                assert forall|j: int| 0 <= j < c.rows.len() implies unmarked(
                    r,
                    #[trigger] c.rows[j],
                    there.rows,
                    marks,
                ) by {
                    assert(stems(r, c.rows[j], there.rows));
                    let i = choose|i: int|
                        0 <= i < there.rows.len() && same_but(
                            r,
                            #[trigger] there.rows[i],
                            c.rows[j],
                        );
                    assert(!marks[i]);
                }
            }
            assert(shared_out(r, marks, a.rows, there.rows, c.rows));
        }
    }
    lemma_loops(store, x, y, z, k, p, machine::unbound(denied.nvars as nat), 0);
}

} // verus!
