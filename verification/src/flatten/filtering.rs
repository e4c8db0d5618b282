//! What a filter added to a level once every level exists comes to: the rows that pass
//! it, of those there were.
use vstd::prelude::*;

use super::emitting;
use super::matching;
use super::running;
use crate::answers;
use crate::answers::{Answers, Offer};
use crate::bytes;
use crate::error::ApertureError;
use crate::iter::Address;
use crate::machine;
use crate::plan::{Fact, FactStore, Residual, ResidualOp};
use crate::program;
use crate::program::{Level, Source, Step, Test};
use crate::reading;
use crate::reading::World;
use crate::schema::{Names, PredicateId, PredicateTy};
use crate::tuple;

verus! {

/// A row of registers.
pub type Row = Seq<Option<Fact>>;

// ---- rows of the right kind -------------------------------------------------

/// The first `m` registers hold rows of their kinds.
pub open spec fn placed(w: World, kinds: Seq<Seq<PredicateId>>, env: Row, m: nat) -> bool {
    &&& m <= kinds.len() <= env.len() <= usize::MAX
    &&& forall|i: int|
        0 <= i < m ==> ((#[trigger] env[i]) matches Some(fact) && running::of_any(
            w.cx,
            w.names,
            fact,
            kinds[i],
        ))
}

proof fn lemma_admitted_among(
    env: Row,
    filters: Seq<Residual>,
    left: Seq<Fact>,
    fact: Fact,
)
    requires
        answers::admitted(env, filters, left).facts.contains(fact),
    ensures
        left.contains(fact),
    decreases left.len(),
{
    reveal_with_fuel(answers::admitted, 1);
    let facts = answers::admitted(env, filters, left).facts;
    let at = choose|at: int| 0 <= at < facts.len() && facts[at] == fact;
    if left.len() > 0 {
        let rest = left.skip(1);
        let more = answers::admitted(env, filters, rest).facts;
        match machine::passes(env, filters, left[0], filters.len()) {
            Ok(true) => {
                if at == 0 {
                    assert(left[0] == fact);
                } else {
                    assert(more[at - 1] == fact);
                    lemma_admitted_among(env, filters, rest, fact);
                    let j = choose|j: int| 0 <= j < rest.len() && rest[j] == fact;
                    assert(left[j + 1] == fact);
                }
            },
            Ok(false) => {
                assert(more[at] == fact);
                lemma_admitted_among(env, filters, rest, fact);
                let j = choose|j: int| 0 <= j < rest.len() && rest[j] == fact;
                assert(left[j + 1] == fact);
            },
            Err(_) => {},
        }
    }
}

/// What a source offers is of its predicate.
proof fn lemma_offered_kind<S: FactStore>(w: World, store: S, env: Row, source: Source, fact: Fact)
    requires
        running::reads(w, store),
        running::closed(w),
        matching::well_typed(w.cx, w.names, store),
        answers::offered(store, env, source).facts.contains(fact),
    ensures
        matching::of_predicate(w.cx, w.names, fact, source.predicate()),
{
    reveal(answers::offered);
    let left = answers::candidates(store, env, source)->Ok_0;
    lemma_admitted_among(env, source.filters()@, left, fact);
    match source {
        Source::Seek { access, .. } => {
            let prefix = answers::access_prefix(env, access)->Ok_0;
            let found = |f: Fact| bytes::begins_with(f.row, prefix);
            let facts = store.facts();
            assert(left == facts.filter(found));
            facts.lemma_filter_contains_rev(found, fact);
            let at = choose|at: int| 0 <= at < left.len() && left[at] == fact;
            facts.lemma_filter_pred(found, at);
            let j = choose|j: int| 0 <= j < facts.len() && facts[j] == fact;
            let four = tuple::big_endian(access.predicate_id.0 as nat, 4);
            assert(bytes::begins_with(fact.row, four)) by {
                assert(prefix.take(four.len() as int) =~= four);
                assert(fact.row.take(four.len() as int) =~= fact.row.take(
                    prefix.len() as int,
                ).take(four.len() as int));
            }
            assert(reading::is_of(store.facts()[j], access.predicate_id));
            if w.cx.schema.predicate(access.predicate_id) is Some {
                assert(matching::of_predicate(
                    w.cx,
                    w.names,
                    store.facts()[j],
                    access.predicate_id,
                ));
            }
        },
        Source::Fetch { reference, path, predicate, .. } => {
            let id = answers::referenced(env, reference, path, predicate)->Ok_0;
            assert(left[0] == fact);
            assert(id.predicate_of() == predicate.0) by {
                let held = machine::held(env, reference)->Ok_0;
                let found = tuple::path_bytes(held.key(), path@)->Ok_0;
                let nameless = Names { schema: Seq::empty(), local: Seq::empty() };
                assert(tuple::decoded_value(
                    nameless,
                    found,
                    PredicateTy::Fact(predicate),
                ) is Ok);
            }
            assert(store.entity(id) is Some);
            assert((w.keys)(id) is Some);
            assert(PredicateId(id.predicate_of() as u32) == predicate);
        },
    }
}

/// The kinds of a body, level by level.
pub proof fn lemma_kinds(body: Seq<Step>)
    ensures
        running::kinds_of(body).len() == program::level_count(body),
        forall|k: int|
            0 <= k < body.len() && (#[trigger] body[k]) is Level ==> program::level_count(
                body.take(k),
            ) < running::kinds_of(body).len() && running::kinds_of(
                body,
            )[program::level_count(body.take(k)) as int] == running::predicates(
                body[k]->Level_0.sources@,
            ),
    decreases body.len(),
{
    if body.len() > 0 {
        let shorter = body.drop_last();
        lemma_kinds(shorter);
        assert forall|k: int| 0 <= k < body.len() && (#[trigger] body[k]) is Level implies
            program::level_count(body.take(k)) < running::kinds_of(body).len()
            && running::kinds_of(body)[program::level_count(body.take(k)) as int]
            == running::predicates(body[k]->Level_0.sources@) by {
            if k < shorter.len() {
                assert(shorter[k] == body[k]);
                assert(shorter.take(k) =~= body.take(k));
            } else {
                assert(body.take(k) =~= shorter);
            }
        }
    }
}

/// How many levels come before a step and through it.
proof fn lemma_count_step(body: Seq<Step>, k: int)
    requires
        0 <= k < body.len(),
    ensures
        program::level_count(body.take(k + 1)) == program::level_count(body.take(k)) + (
        if body[k] is Level {
            1nat
        } else {
            0nat
        }),
{
    assert(body.take(k + 1).drop_last() =~= body.take(k));
}

// ---- one filter more --------------------------------------------------------

proof fn lemma_passes_push(env: Row, filters: Seq<Residual>, r: Residual, fact: Fact, k: nat)
    requires
        k <= filters.len(),
    ensures
        machine::passes(env, filters.push(r), fact, k) == machine::passes(env, filters, fact, k),
    decreases k,
{
    if k > 0 {
        lemma_passes_push(env, filters, r, fact, (k - 1) as nat);
        assert(filters.push(r)[k - 1] == filters[k - 1]);
    }
}

/// Whether a fact passes one filter.
pub open spec fn let_through(env: Row, r: Residual) -> spec_fn(Fact) -> bool {
    |fact: Fact| machine::passes_one(env, r, fact) == Ok::<bool, ApertureError>(true)
}

proof fn lemma_admitted_push(env: Row, filters: Seq<Residual>, r: Residual, left: Seq<Fact>)
    requires
        answers::admitted(env, filters, left).error is None,
        forall|fact: Fact|
            answers::admitted(env, filters, left).facts.contains(fact)
                ==> #[trigger] machine::passes_one(env, r, fact) is Ok,
    ensures
        answers::admitted(env, filters.push(r), left) == (Offer {
            facts: answers::admitted(env, filters, left).facts.filter(let_through(env, r)),
            error: None,
        }),
    decreases left.len(),
{
    reveal_with_fuel(answers::admitted, 1);
    let p = let_through(env, r);
    if left.len() == 0 {
        reveal(Seq::filter);
        assert(Seq::<Fact>::empty().filter(p) =~= Seq::<Fact>::empty());
    } else {
        let rest = left.skip(1);
        let more = answers::admitted(env, filters, rest);
        let all = answers::admitted(env, filters, left);
        let n = filters.len();
        lemma_passes_push(env, filters, r, left[0], n);
        assert(filters.push(r)[n as int] == r);
        assert(more.error is None);
        assert forall|fact: Fact| more.facts.contains(fact) implies
            #[trigger] machine::passes_one(env, r, fact) is Ok by {
            let j = choose|j: int| 0 <= j < more.facts.len() && more.facts[j] == fact;
            if machine::passes(env, filters, left[0], n) == Ok::<bool, ApertureError>(true) {
                assert(all.facts[j + 1] == fact);
            } else {
                assert(all.facts[j] == fact);
            }
        }
        lemma_admitted_push(env, filters, r, rest);
        if machine::passes(env, filters, left[0], n) == Ok::<bool, ApertureError>(true) {
            assert(all.facts[0] == left[0]);
            assert(machine::passes_one(env, r, left[0]) is Ok);
            lemma_filter_front(left[0], more.facts, p);
        }
    }
}

proof fn lemma_filter_front(first: Fact, rest: Seq<Fact>, p: spec_fn(Fact) -> bool)
    ensures
        (seq![first] + rest).filter(p) == (if p(first) {
            seq![first] + rest.filter(p)
        } else {
            rest.filter(p)
        }),
{
    Seq::<Fact>::filter_distributes_over_add(seq![first], rest, p);
    reveal_with_fuel(Seq::filter, 2);
    assert(seq![first].drop_last() =~= Seq::<Fact>::empty());
    assert(seq![first].filter(p) =~= if p(first) {
        seq![first]
    } else {
        Seq::empty()
    });
    assert(Seq::<Fact>::empty() + rest.filter(p) =~= rest.filter(p));
}

/// A source with one filter more offers what passes it.
proof fn lemma_offered_filtered<S: FactStore>(store: S, env: Row, source: Source, r: Residual)
    requires
        answers::offered(store, env, source).error is None,
        forall|fact: Fact|
            answers::offered(store, env, source).facts.contains(fact)
                ==> #[trigger] machine::passes_one(env, r, fact) is Ok,
        source.filtered_by(r).filters()@ == source.filters()@.push(r),
    ensures
        answers::offered(store, env, source.filtered_by(r)) == (Offer {
            facts: answers::offered(store, env, source).facts.filter(let_through(env, r)),
            error: None,
        }),
{
    reveal(answers::offered);
    if let Ok(left) = answers::candidates(store, env, source) {
        lemma_admitted_push(env, source.filters()@, r, left);
    }
}

// ---- one filter more on one level -------------------------------------------

/// Whether the row a register holds passes a filter.
pub open spec fn passing(a: Address, r: Residual) -> spec_fn(Row) -> bool {
    |row: Row|
        machine::passes_one(row, r, matching::fact_in(row, a)) == Ok::<bool, ApertureError>(true)
}

/// A filter that can be read wherever it is asked: it reads registers filled before, and
/// fields that every row of the kind has.
pub open spec fn readable_at(
    w: World,
    kinds: Seq<Seq<PredicateId>>,
    a: Address,
    r: Residual,
) -> bool {
    &&& program::op_below(r.op, a.0 as nat)
    &&& forall|env: Row, fact: Fact|
        placed(w, kinds, env, a.0 as nat) && running::of_any(
            w.cx,
            w.names,
            fact,
            kinds[a.0 as int],
        ) ==> #[trigger] machine::passes_one(env, r, fact) is Ok
}

/// A body, and the same with one filter more on the level that fills `a`.
pub struct Change {
    pub w: World,
    pub body: Seq<Step>,
    pub at: nat,
    pub a: Address,
    pub r: Residual,
}

impl Change {
    pub open spec fn level(self) -> Level {
        self.body[self.at as int]->Level_0
    }

    /// The body with the filter.
    pub open spec fn changed(self) -> Seq<Step> {
        self.body.update(self.at as int, Step::Level(self.level().filtered_by(self.r)))
    }

    pub open spec fn kinds(self) -> Seq<Seq<PredicateId>> {
        running::kinds_of(self.body)
    }

    pub open spec fn pass(self) -> spec_fn(Row) -> bool {
        passing(self.a, self.r)
    }

    /// The level there is, and what it is made of once it is filtered.
    pub open spec fn wf(self) -> bool {
        &&& self.at < self.body.len()
        &&& self.body[self.at as int] is Level
        &&& program::level_count(self.body.take(self.at as int)) == self.a.0
        &&& emitting::registers_are_positions(self.body)
        &&& readable_at(self.w, self.kinds(), self.a, self.r)
        &&& self.level().filtered_by(self.r).sources@ == program::all_filtered(
            self.level().sources@,
            self.r,
        )
        &&& forall|i: int|
            0 <= i < self.level().sources@.len() ==> (
            #[trigger] self.level().sources@[i]).filtered_by(self.r).filters()@
                == self.level().sources@[i].filters()@.push(self.r)
    }
}

/// What a change makes of some answers: before the level, those that pass; after it, all.
pub open spec fn changes(c: Change, k: nat, x: Answers, y: Answers) -> bool {
    if k <= c.at {
        y.error is None && y.rows == x.rows.filter(c.pass())
    } else {
        y == x
    }
}

/// Rows that keep the first `m` registers.
pub open spec fn keep_low(x: Answers, env: Row, m: nat) -> bool {
    forall|i: int|
        0 <= i < x.rows.len() ==> (#[trigger] x.rows[i]).len() == env.len() && forall|j: int|
            0 <= j < m ==> x.rows[i][j] == #[trigger] env[j]
}

/// What a change is followed with.
pub open spec fn following<S: FactStore>(c: Change, store: S, k: nat, env: Row) -> bool {
    &&& c.wf()
    &&& running::reads(c.w, store)
    &&& running::closed(c.w)
    &&& matching::well_typed(c.w.cx, c.w.names, store)
    &&& k <= c.body.len()
    &&& placed(c.w, c.kinds(), env, program::level_count(c.body.take(k as int)))
}

proof fn lemma_chain_changes(c: Change, k: nat, x: Answers, y: Answers, u: Answers, v: Answers)
    requires
        changes(c, k, x, y),
        changes(c, k, u, v),
        x.error is None,
        u.error is None,
    ensures
        changes(c, k, x.chain(u), y.chain(v)),
{
    reveal(Answers::chain);
    if k <= c.at {
        Seq::<Row>::filter_distributes_over_add(x.rows, u.rows, c.pass());
    }
}

proof fn lemma_chain_keeps(x: Answers, u: Answers, env: Row, m: nat)
    requires
        keep_low(x, env, m),
        keep_low(u, env, m),
        x.error is None,
    ensures
        keep_low(x.chain(u), env, m),
{
    reveal(Answers::chain);
    let both = x.chain(u);
    assert forall|i: int| 0 <= i < both.rows.len() implies (#[trigger] both.rows[i]).len()
        == env.len() && forall|j: int| 0 <= j < m ==> both.rows[i][j] == #[trigger] env[j] by {
        if i < x.rows.len() {
            assert(both.rows[i] == x.rows[i]);
        } else {
            assert(both.rows[i] == u.rows[i - x.rows.len()]);
        }
    }
}

/// An error anywhere is one in the end.
proof fn lemma_chain_none(x: Answers, u: Answers)
    ensures
        x.chain(u).error is None <==> x.error is None && u.error is None,
{
    reveal(Answers::chain);
}

/// The rest of a body, with the filter and without.
pub proof fn lemma_changed<S: FactStore>(c: Change, store: S, k: nat, env: Row)
    requires
        following(c, store, k, env),
        answers::answers(store, c.body, env, k).error is None,
    ensures
        changes(
            c,
            k,
            answers::answers(store, c.body, env, k),
            answers::answers(store, c.changed(), env, k),
        ),
        keep_low(
            answers::answers(store, c.body, env, k),
            env,
            program::level_count(c.body.take(k as int)),
        ),
    decreases c.body.len() - k, 2nat, 0nat,
{
    answers::lemma_step(store, c.body, env, k);
    answers::lemma_step(store, c.changed(), env, k);
    if k < c.body.len() {
        lemma_count_step(c.body, k as int);
        lemma_kinds(c.body);
        match c.body[k as int] {
            Step::Level(level) => {
                let other = c.changed()[k as int]->Level_0;
                assert(c.changed()[k as int] is Level && other.binds == level.binds);
                assert(level.sources@.skip(0) =~= level.sources@);
                assert(other.sources@.skip(0) =~= other.sources@);
                lemma_changed_sources(c, store, k, env, 0);
            },
            Step::Test(Test::Absent(sources)) => {
                assert(k != c.at);
                assert(c.changed()[k as int] == c.body[k as int]);
                if answers::absent(store, env, sources@) == Ok::<bool, ApertureError>(true) {
                    lemma_changed(c, store, k + 1, env);
                } else {
                    reveal(Seq::filter);
                    assert(Seq::<Row>::empty().filter(c.pass()) =~= Seq::<Row>::empty());
                }
            },
            Step::Derive(_) => {
                assert(k != c.at);
                assert(c.changed()[k as int] == c.body[k as int]);
                lemma_changed(c, store, k + 1, env);
            },
        }
    }
}

/// The sources of a level from the `i`th on.
proof fn lemma_changed_sources<S: FactStore>(c: Change, store: S, k: nat, env: Row, i: nat)
    requires
        following(c, store, k, env),
        k < c.body.len(),
        c.body[k as int] is Level,
        i <= c.body[k as int]->Level_0.sources@.len(),
        answers::over_sources(
            store,
            c.body,
            env,
            k,
            c.body[k as int]->Level_0.sources@.skip(i as int),
            c.body[k as int]->Level_0.binds@,
        ).error is None,
    ensures
        ({
            let binds = c.body[k as int]->Level_0.binds@;
            let x = answers::over_sources(
                store,
                c.body,
                env,
                k,
                c.body[k as int]->Level_0.sources@.skip(i as int),
                binds,
            );
            let y = answers::over_sources(
                store,
                c.changed(),
                env,
                k,
                c.changed()[k as int]->Level_0.sources@.skip(i as int),
                binds,
            );
            &&& changes(c, k, x, y)
            &&& keep_low(x, env, program::level_count(c.body.take(k as int)))
        }),
    decreases c.body.len() - k, 1nat, c.body[k as int]->Level_0.sources@.len() - i,
{
    let level = c.body[k as int]->Level_0;
    let other = c.changed()[k as int]->Level_0;
    let (left, left2) = (level.sources@.skip(i as int), other.sources@.skip(i as int));
    answers::lemma_source(store, c.body, env, k, left, level.binds@);
    answers::lemma_source(store, c.changed(), env, k, left2, level.binds@);
    assert(other.sources@.len() == level.sources@.len());
    if i == level.sources@.len() {
        reveal(Seq::filter);
        assert(Seq::<Row>::empty().filter(c.pass()) =~= Seq::<Row>::empty());
    } else {
        let source = level.sources@[i as int];
        let source2 = other.sources@[i as int];
        assert(left[0] == source);
        assert(left2[0] == source2);
        assert(left.skip(1) =~= level.sources@.skip(i as int + 1));
        assert(left2.skip(1) =~= other.sources@.skip(i as int + 1));
        let offer = answers::offered(store, env, source);
        let offer2 = answers::offered(store, env, source2);
        let x = answers::over_offer(store, c.body, env, k, level.binds@, offer);
        let y = answers::over_offer(store, c.changed(), env, k, level.binds@, offer2);
        let u = answers::over_sources(store, c.body, env, k, left.skip(1), level.binds@);
        let v = answers::over_sources(store, c.changed(), env, k, left2.skip(1), level.binds@);
        lemma_chain_none(x, u);
        lemma_offer_error(store, c.body, env, k, level.binds@, offer);
        lemma_changed_sources(c, store, k, env, i + 1);
        lemma_offers_changed(c, store, k, env, i);
        assert(offer.facts.skip(0) =~= offer.facts);
        lemma_changed_facts(c, store, k, env, i, 0);
        lemma_chain_changes(c, k, x, y, u, v);
        lemma_chain_keeps(x, u, env, program::level_count(c.body.take(k as int)));
    }
}

/// A level that ended in no error was offered none.
proof fn lemma_offer_error<S: FactStore>(
    store: S,
    body: Seq<Step>,
    env: Row,
    k: nat,
    binds: Seq<Address>,
    offer: Offer,
)
    requires
        k < body.len(),
        answers::over_offer(store, body, env, k, binds, offer).error is None,
    ensures
        offer.error is None,
    decreases offer.facts.len(),
{
    answers::lemma_row(store, body, env, k, binds, offer);
    if offer.facts.len() > 0 && machine::stray(binds, env.len(), 0) is None {
        lemma_chain_none(
            answers::answers(store, body, machine::bound(env, binds, offer.facts[0]), k + 1),
            answers::over_offer(store, body, env, k, binds, answers::past(offer)),
        );
        lemma_offer_error(store, body, env, k, binds, answers::past(offer));
    }
}

/// What a source offers with the filter: what passes it, on the level that has it.
proof fn lemma_offers_changed<S: FactStore>(c: Change, store: S, k: nat, env: Row, i: nat)
    requires
        following(c, store, k, env),
        k < c.body.len(),
        c.body[k as int] is Level,
        i < c.body[k as int]->Level_0.sources@.len(),
        answers::offered(store, env, c.body[k as int]->Level_0.sources@[i as int]).error is None,
    ensures
        ({
            let offer = answers::offered(
                store,
                env,
                c.body[k as int]->Level_0.sources@[i as int],
            );
            let offer2 = answers::offered(
                store,
                env,
                c.changed()[k as int]->Level_0.sources@[i as int],
            );
            if k == c.at {
                offer2 == (Offer { facts: offer.facts.filter(let_through(env, c.r)), error: None })
            } else {
                offer2 == offer
            }
        }),
{
    let level = c.body[k as int]->Level_0;
    let source = level.sources@[i as int];
    if k == c.at {
        lemma_kinds(c.body);
        assert(c.changed()[k as int]->Level_0.sources@[i as int] == source.filtered_by(c.r));
        assert forall|fact: Fact|
            answers::offered(store, env, source).facts.contains(fact) implies
            #[trigger] machine::passes_one(env, c.r, fact) is Ok by {
            lemma_offered_kind(c.w, store, env, source, fact);
            let kind = running::predicates(level.sources@);
            assert(kind[i as int] == source.predicate());
            assert(running::of_any(c.w.cx, c.w.names, fact, c.kinds()[c.a.0 as int]));
        }
        lemma_offered_filtered(store, env, source, c.r);
    } else {
        assert(c.changed()[k as int] == c.body[k as int]);
    }
}

/// The facts one source offers from the `j`th on.
proof fn lemma_changed_facts<S: FactStore>(
    c: Change,
    store: S,
    k: nat,
    env: Row,
    i: nat,
    j: nat,
)
    requires
        following(c, store, k, env),
        k < c.body.len(),
        c.body[k as int] is Level,
        i < c.body[k as int]->Level_0.sources@.len(),
        answers::offered(store, env, c.body[k as int]->Level_0.sources@[i as int]).error is None,
        j <= answers::offered(
            store,
            env,
            c.body[k as int]->Level_0.sources@[i as int],
        ).facts.len(),
        answers::over_offer(
            store,
            c.body,
            env,
            k,
            c.body[k as int]->Level_0.binds@,
            Offer {
                facts: answers::offered(
                    store,
                    env,
                    c.body[k as int]->Level_0.sources@[i as int],
                ).facts.skip(j as int),
                error: None,
            },
        ).error is None,
    ensures
        ({
            let binds = c.body[k as int]->Level_0.binds@;
            let left = answers::offered(
                store,
                env,
                c.body[k as int]->Level_0.sources@[i as int],
            ).facts.skip(j as int);
            let x = answers::over_offer(
                store,
                c.body,
                env,
                k,
                binds,
                Offer { facts: left, error: None },
            );
            let y = answers::over_offer(
                store,
                c.changed(),
                env,
                k,
                binds,
                Offer {
                    facts: if k == c.at {
                        left.filter(let_through(env, c.r))
                    } else {
                        left
                    },
                    error: None,
                },
            );
            &&& changes(c, k, x, y)
            &&& keep_low(x, env, program::level_count(c.body.take(k as int)))
        }),
    decreases
            c.body.len() - k,
            0nat,
            answers::offered(
                store,
                env,
                c.body[k as int]->Level_0.sources@[i as int],
            ).facts.len() - j,
{
    let level = c.body[k as int]->Level_0;
    let source = level.sources@[i as int];
    let facts = answers::offered(store, env, source).facts;
    let left = facts.skip(j as int);
    let m = program::level_count(c.body.take(k as int));
    let through = let_through(env, c.r);
    let offer = Offer { facts: left, error: None };
    let left2 = if k == c.at {
        left.filter(through)
    } else {
        left
    };
    let offer2 = Offer { facts: left2, error: None };
    answers::lemma_row(store, c.body, env, k, level.binds@, offer);
    answers::lemma_row(store, c.changed(), env, k, level.binds@, offer2);
    if j == facts.len() {
        reveal(Seq::filter);
        assert(Seq::<Row>::empty().filter(c.pass()) =~= Seq::<Row>::empty());
        assert(left =~= Seq::<Fact>::empty());
        assert(Seq::<Fact>::empty().filter(through) =~= Seq::<Fact>::empty());
    } else {
        let fact = left[0];
        assert(fact == facts[j as int]);
        assert(left.skip(1) =~= facts.skip(j as int + 1));
        lemma_kinds(c.body);
        assert(level.binds@ == seq![Address(m as usize)]);
        reveal_with_fuel(machine::stray, 2);
        let filled = machine::bound(env, level.binds@, fact);
        let x = answers::answers(store, c.body, filled, k + 1);
        let u = answers::over_offer(store, c.body, env, k, level.binds@, answers::past(offer));
        lemma_chain_none(x, u);
        lemma_offered_kind(c.w, store, env, source, fact);
        lemma_placed(c, k, env, i, fact);
        lemma_count_step(c.body, k as int);
        lemma_changed(c, store, k + 1, filled);
        lemma_changed_facts(c, store, k, env, i, j + 1);
        lemma_lower(x, env, filled, m);
        lemma_chain_keeps(x, u, env, m);
        let y = answers::answers(store, c.changed(), filled, k + 1);
        if k == c.at {
            lemma_filter_front(fact, left.skip(1), through);
            assert(left =~= seq![fact] + left.skip(1));
            lemma_all_or_none(c, env, filled, fact, x);
            let v = answers::over_offer(
                store,
                c.changed(),
                env,
                k,
                level.binds@,
                Offer { facts: left.skip(1).filter(through), error: None },
            );
            if through(fact) {
                assert(left2[0] == fact);
                assert(left2.skip(1) =~= left.skip(1).filter(through));
                assert(answers::past(offer2) == (Offer {
                    facts: left.skip(1).filter(through),
                    error: None,
                }));
                assert(changes(c, k, x, y));
                lemma_chain_changes(c, k, x, y, u, v);
            } else {
                let nothing = Answers { rows: Seq::empty(), error: None };
                assert(x.rows.filter(c.pass()) == Seq::<Row>::empty());
                assert(changes(c, k, x, nothing));
                lemma_chain_changes(c, k, x, nothing, u, v);
                assert(nothing.chain(v) == v) by {
                    reveal(Answers::chain);
                    assert(nothing.rows + v.rows =~= v.rows);
                }
            }
        } else {
            let v = answers::over_offer(
                store,
                c.changed(),
                env,
                k,
                level.binds@,
                answers::past(offer),
            );
            lemma_chain_changes(c, k, x, y, u, v);
        }
    }
}

/// The registers after a level is on a row.
proof fn lemma_placed(c: Change, k: nat, env: Row, i: nat, fact: Fact)
    requires
        c.wf(),
        k < c.body.len(),
        c.body[k as int] is Level,
        i < c.body[k as int]->Level_0.sources@.len(),
        placed(c.w, c.kinds(), env, program::level_count(c.body.take(k as int))),
        matching::of_predicate(
            c.w.cx,
            c.w.names,
            fact,
            c.body[k as int]->Level_0.sources@[i as int].predicate(),
        ),
    ensures
        ({
            let m = program::level_count(c.body.take(k as int));
            let filled = machine::bound(env, c.body[k as int]->Level_0.binds@, fact);
            &&& placed(c.w, c.kinds(), filled, m + 1)
            &&& filled.len() == env.len()
            &&& filled[m as int] == Some(fact)
            &&& forall|l: int| 0 <= l < m ==> filled[l] == #[trigger] env[l]
        }),
{
    let m = program::level_count(c.body.take(k as int));
    let level = c.body[k as int]->Level_0;
    lemma_kinds(c.body);
    let here = Address(m as usize);
    assert(level.binds@ == seq![here]);
    let filled = machine::bound(env, level.binds@, fact);
    assert forall|l: int| 0 <= l < env.len() implies (#[trigger] filled[l]) == (if l == m {
        Some(fact)
    } else {
        env[l]
    }) by {
        assert(seq![here].contains(Address(l as usize)) <==> l == m) by {
            assert(seq![here][0] == here);
        }
    }
    let kind = running::predicates(level.sources@);
    assert(kind[i as int] == level.sources@[i as int].predicate());
    assert(running::of_any(c.w.cx, c.w.names, fact, kind));
    assert forall|l: int| 0 <= l < m + 1 implies ((#[trigger] filled[l]) matches Some(f)
        && running::of_any(c.w.cx, c.w.names, f, c.kinds()[l])) by {
        if l < m {
            assert(env[l] is Some);
        }
    }
}

/// Rows that keep more registers keep fewer.
proof fn lemma_lower(x: Answers, env: Row, filled: Row, m: nat)
    requires
        keep_low(x, filled, m + 1),
        filled.len() == env.len(),
        forall|l: int| 0 <= l < m ==> filled[l] == #[trigger] env[l],
    ensures
        keep_low(x, env, m),
{
    assert forall|i: int| 0 <= i < x.rows.len() implies (#[trigger] x.rows[i]).len() == env.len()
        && forall|j: int| 0 <= j < m ==> x.rows[i][j] == #[trigger] env[j] by {
        assert forall|j: int| 0 <= j < m implies x.rows[i][j] == #[trigger] env[j] by {
            assert(filled[j] == env[j]);
        }
    }
}

/// Every row from one fact of the level passes, or none does.
proof fn lemma_all_or_none(c: Change, env: Row, filled: Row, fact: Fact, x: Answers)
    requires
        c.wf(),
        program::op_below(c.r.op, c.a.0 as nat),
        c.a.0 < filled.len() == env.len(),
        filled[c.a.0 as int] == Some(fact),
        forall|l: int| 0 <= l < c.a.0 ==> filled[l] == #[trigger] env[l],
        keep_low(x, filled, c.a.0 as nat + 1),
    ensures
        let_through(env, c.r)(fact) ==> x.rows.filter(c.pass()) == x.rows,
        !let_through(env, c.r)(fact) ==> x.rows.filter(c.pass()) == Seq::<Row>::empty(),
{
    assert forall|i: int| 0 <= i < x.rows.len() implies c.pass()(#[trigger] x.rows[i])
        == let_through(env, c.r)(fact) by {
        let row = x.rows[i];
        assert(row[c.a.0 as int] == filled[c.a.0 as int]);
        match c.r.op {
            ResidualOp::EqRegisterField { address, .. } => {
                assert(filled[address.0 as int] == env[address.0 as int]);
                assert(row[address.0 as int] == filled[address.0 as int]);
            },
            ResidualOp::EqRegisterFactId(address) => {
                assert(filled[address.0 as int] == env[address.0 as int]);
                assert(row[address.0 as int] == filled[address.0 as int]);
            },
            _ => {},
        }
    }
    lemma_filter_uniform(x.rows, c.pass(), let_through(env, c.r)(fact));
}

proof fn lemma_filter_uniform(s: Seq<Row>, p: spec_fn(Row) -> bool, all: bool)
    requires
        forall|i: int| 0 <= i < s.len() ==> p(#[trigger] s[i]) == all,
    ensures
        all ==> s.filter(p) == s,
        !all ==> s.filter(p) == Seq::<Row>::empty(),
    decreases s.len(),
{
    reveal(Seq::filter);
    if s.len() > 0 {
        let shorter = s.drop_last();
        assert forall|i: int| 0 <= i < shorter.len() implies p(#[trigger] shorter[i]) == all by {
            assert(shorter[i] == s[i]);
        }
        lemma_filter_uniform(shorter, p, all);
        assert(p(s[s.len() - 1]) == all);
        assert(shorter.push(s.last()) =~= s);
    }
}

// ---- a level over nothing ---------------------------------------------------

/// A body that ends in a level over nothing answers nothing.
pub proof fn lemma_emptied<S: FactStore>(
    store: S,
    body: Seq<Step>,
    level: Level,
    env: Row,
    k: nat,
)
    requires
        level.sources@.len() == 0,
        k <= body.len(),
        answers::answers(store, body, env, k).error is None,
    ensures
        answers::answers(store, body.push(Step::Level(level)), env, k) == Answers::nothing(),
    decreases body.len() - k, 2nat, 0nat,
{
    let more = body.push(Step::Level(level));
    answers::lemma_step(store, body, env, k);
    answers::lemma_step(store, more, env, k);
    if k == body.len() {
        answers::lemma_source(store, more, env, k, level.sources@, level.binds@);
    } else {
        assert(more[k as int] == body[k as int]);
        match body[k as int] {
            Step::Level(one) => lemma_emptied_sources(
                store,
                body,
                level,
                env,
                k,
                one.sources@,
                one.binds@,
            ),
            Step::Test(Test::Absent(sources)) => {
                if answers::absent(store, env, sources@) == Ok::<bool, ApertureError>(true) {
                    lemma_emptied(store, body, level, env, k + 1);
                }
            },
            Step::Derive(_) => lemma_emptied(store, body, level, env, k + 1),
        }
    }
}

proof fn lemma_emptied_sources<S: FactStore>(
    store: S,
    body: Seq<Step>,
    level: Level,
    env: Row,
    k: nat,
    sources: Seq<Source>,
    binds: Seq<Address>,
)
    requires
        level.sources@.len() == 0,
        k < body.len(),
        answers::over_sources(store, body, env, k, sources, binds).error is None,
    ensures
        answers::over_sources(store, body.push(Step::Level(level)), env, k, sources, binds)
            == Answers::nothing(),
    decreases body.len() - k, 1nat, sources.len(),
{
    let more = body.push(Step::Level(level));
    answers::lemma_source(store, body, env, k, sources, binds);
    answers::lemma_source(store, more, env, k, sources, binds);
    if sources.len() > 0 {
        let offer = answers::offered(store, env, sources[0]);
        lemma_chain_none(
            answers::over_offer(store, body, env, k, binds, offer),
            answers::over_sources(store, body, env, k, sources.skip(1), binds),
        );
        lemma_emptied_offer(store, body, level, env, k, binds, offer);
        lemma_emptied_sources(store, body, level, env, k, sources.skip(1), binds);
        running::lemma_chain_nothing(Answers::nothing());
    }
}

proof fn lemma_emptied_offer<S: FactStore>(
    store: S,
    body: Seq<Step>,
    level: Level,
    env: Row,
    k: nat,
    binds: Seq<Address>,
    offer: Offer,
)
    requires
        level.sources@.len() == 0,
        k < body.len(),
        answers::over_offer(store, body, env, k, binds, offer).error is None,
    ensures
        answers::over_offer(store, body.push(Step::Level(level)), env, k, binds, offer)
            == Answers::nothing(),
    decreases body.len() - k, 0nat, offer.facts.len(),
{
    let more = body.push(Step::Level(level));
    answers::lemma_row(store, body, env, k, binds, offer);
    answers::lemma_row(store, more, env, k, binds, offer);
    if offer.facts.len() > 0 && machine::stray(binds, env.len(), 0) is None {
        let filled = machine::bound(env, binds, offer.facts[0]);
        lemma_chain_none(
            answers::answers(store, body, filled, k + 1),
            answers::over_offer(store, body, env, k, binds, answers::past(offer)),
        );
        lemma_emptied(store, body, level, filled, k + 1);
        lemma_emptied_offer(store, body, level, env, k, binds, answers::past(offer));
        running::lemma_chain_nothing(Answers::nothing());
    }
}

} // verus!
