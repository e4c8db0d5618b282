//! A flattened query answers what its statements mean.
use vstd::prelude::*;

use super::emitting;
use super::emitting::Built;
use super::matching;
use super::model;
use super::scope;
use super::model::{St, Stmt};
use super::running;
use super::taking;
use crate::answers;
use crate::answers::{Answers, Offer};
use crate::boxed;
use crate::machine;
use crate::plan::{Fact, FactStore};
use crate::program::{Level, Step, Test};
use crate::reading;
use crate::reading::typing::Kinds;
use crate::reading::{Found, World};

verus! {

// ---- a query to be emitted --------------------------------------------------

/// A query's statements, the order they are emitted in, the state that starts from, and the
/// kind of each variable.
pub struct Job {
    pub w: World,
    pub kinds: Kinds,
    pub st: St,
    pub stmts: Seq<Stmt>,
    pub order: Seq<usize>,
}

/// Some statement before the `k`th of an order ranges over nothing.
pub open spec fn dead(stmts: Seq<Stmt>, order: Seq<usize>, k: nat) -> bool {
    exists|j: int|
        0 <= j < k && (stmts[#[trigger] order[j] as int] matches Stmt::Scan(scan)
            && scan.alternatives@.len() == 0)
}

impl Job {
    /// The state and the body after `k` statements.
    pub open spec fn at(self, k: nat) -> (St, Option<Built>) {
        emitting::emitted_stmts(self.w.cx, self.st, self.stmts, self.order, k)
    }

    /// The state and the body once the head's references are followed.
    pub open spec fn done(self) -> (St, Built) {
        let (st, built) = self.at(self.order.len());
        emitting::fetch_within(self.w.cx, st, built->0, self.w.cx.ast.root().head)
    }

    /// Statement `k` of the order.
    pub open spec fn stmt(self, k: nat) -> Stmt {
        self.stmts[self.order[k as int] as int]
    }

    /// Nothing is amiss to begin with: only constants are bound, every statement is one
    /// flattening gathers, and a negation names only what is bound.
    pub open spec fn fair(self) -> bool {
        &&& running::ground(self.w)
        &&& matching::linked(self.w, self.w.cx, self.st)
        &&& running::told(self.w.cx, self.st, Seq::empty())
        &&& self.st.constrained.len() == 0
        &&& forall|k: nat|
            k < self.order.len() ==> self.order[k as int] < self.stmts.len() && running::proper(
                self.w,
                self.kinds,
                #[trigger] self.stmt(k),
            ) && (self.stmt(k) matches Stmt::Negate(tested) ==> dead(
                self.stmts,
                self.order,
                k,
            ) || running::all_bound(self.w, self.at(k).0.bindings, tested.alternatives@))
    }

    /// And nothing was reported.
    pub open spec fn ready(self) -> bool {
        &&& self.fair()
        &&& self.at(self.order.len()).1 is Some
        &&& scope::clean(self.st, self.done().0)
        &&& self.done().1.levels <= usize::MAX
    }

    /// What is before a statement is no more than what is at the end.
    pub proof fn lemma_before(self, k: nat)
        requires
            self.at(self.order.len()).1 is Some,
            forall|j: int| 0 <= j < self.order.len() ==> (#[trigger] self.order[j])
                < self.stmts.len(),
            k <= self.order.len(),
        ensures
            self.at(k).1 is Some,
            scope::further(self.st, self.at(k).0),
            scope::further(self.at(k).0, self.done().0),
            self.at(k).1->0.levels <= self.done().1.levels,
        decreases self.order.len() - k,
    {
        self.lemma_since(k);
        if k == self.order.len() {
            let (st, built) = self.at(k);
            running::lemma_fetch_more(self.w.cx, st, built->0, self.w.cx.ast.root().head);
        } else {
            self.lemma_before(k + 1);
            let (st, built) = self.at(k);
            assert(built is Some);
            assert(self.order[k as int] < self.stmts.len());
            running::lemma_stmt_more(self.w.cx, st, built->0, self.stmt(k));
        }
    }

    pub proof fn lemma_since(self, k: nat)
        ensures
            scope::further(self.st, self.at(k).0),
        decreases k,
    {
        if k > 0 {
            let j = (k - 1) as nat;
            self.lemma_since(j);
            let (st, built) = self.at(j);
            if built is Some && self.order[k - 1] < self.stmts.len() {
                running::lemma_stmt_more(self.w.cx, st, built->0, self.stmt(j));
            }
        }
    }

    /// At every statement every place is of its type.
    pub proof fn lemma_at(self, k: nat)
        requires
            self.ready(),
            k <= self.order.len(),
        ensures
            self.at(k).1 is Some,
            scope::clean(self.st, self.at(k).0),
            running::begun(self.w, self.at(k).0, self.at(k).1->0),
            k > 0 ==> running::grown(self.at((k - 1) as nat).1->0, self.at(k).1->0),
        decreases k,
    {
        assert forall|j: int| 0 <= j < self.order.len() implies (#[trigger] self.order[j])
            < self.stmts.len() by {
            let stmt = self.stmt(j as nat);
        }
        self.lemma_before(k);
        if k > 0 {
            let j = (k - 1) as nat;
            self.lemma_at(j);
            let (st, built) = self.at(j);
            let stmt = self.stmt(j);
            running::lemma_stmt_typed(self.w, self.kinds, st, built->0, stmt);
        } else {
            assert(running::kinds_of(Seq::<Step>::empty()) =~= Seq::empty());
        }
    }

    /// Every beginning is a beginning of the whole.
    pub proof fn lemma_to_the_end(self, k: nat)
        requires
            self.ready(),
            k <= self.order.len(),
        ensures
            self.at(k).1 is Some,
            running::grown(self.at(k).1->0, self.done().1),
            running::begun(self.w, self.done().0, self.done().1),
            running::follows_on(
                self.w,
                self.at(self.order.len()).0,
                self.at(self.order.len()).1->0,
                self.done().0,
                self.done().1,
            ),
        decreases self.order.len() - k,
    {
        self.lemma_at(k);
        if k == self.order.len() {
            let (st, built) = self.at(k);
            running::lemma_fetch_typed(
                self.w,
                st,
                built->0,
                self.w.cx.ast.root().head,
            );
        } else {
            self.lemma_at(k + 1);
            self.lemma_to_the_end(k + 1);
            running::lemma_grown(self.at(k).1->0, self.at(k + 1).1->0, self.done().1);
        }
    }
}

// ---- rows and readings ------------------------------------------------------

/// Some answers are some readings: as many, in the same order, each row of registers
/// having found what the reading has.
pub open spec fn comes_to(job: Job, nvars: nat, a: Answers, ways: Seq<Found>) -> bool {
    let (st, built) = job.done();
    &&& a.error is None
    &&& a.rows.len() == ways.len()
    &&& forall|i: int|
        0 <= i < ways.len() ==> running::found_in(st, #[trigger] a.rows[i]) == ways[i]
            && a.rows[i].len() == nvars && running::fits(
            job.w.cx,
            job.w,
            st,
            running::kinds_of(built.steps),
            a.rows[i],
        ) && running::obeyed(job.w, st, ways[i].sense)
}

proof fn lemma_comes_chain(
    job: Job,
    nvars: nat,
    a: Answers,
    b: Answers,
    x: Seq<Found>,
    y: Seq<Found>,
)
    requires
        comes_to(job, nvars, a, x),
        comes_to(job, nvars, b, y),
    ensures
        comes_to(job, nvars, a.chain(b), x + y),
{
    reveal(Answers::chain);
    let both = a.chain(b);
    let (st, built) = job.done();
    assert forall|i: int| 0 <= i < (x + y).len() implies running::found_in(
        st,
        #[trigger] both.rows[i],
    ) == (x + y)[i] && both.rows[i].len() == nvars && running::fits(
        job.w.cx,
        job.w,
        st,
        running::kinds_of(built.steps),
        both.rows[i],
    ) && running::obeyed(job.w, st, (x + y)[i].sense) by {
        if i < x.len() {
            assert(both.rows[i] == a.rows[i]);
        } else {
            assert(both.rows[i] == b.rows[i - x.len()]);
        }
    }
}

/// What a statement is run with.
pub open spec fn running_at<S: FactStore>(
    job: Job,
    store: S,
    k: nat,
    env: Seq<Option<Fact>>,
) -> bool {
    &&& job.ready()
    &&& running::reads(job.w, store)
    &&& matching::well_typed(job.w.cx, job.w.names, store)
    &&& k <= job.order.len()
    &&& !dead(job.stmts, job.order, k)
    &&& job.done().1.levels <= env.len()
    &&& running::fits(
        job.w.cx,
        job.w,
        job.at(k).0,
        running::kinds_of(job.at(k).1->0.steps),
        env,
    )
    &&& running::obeyed(job.w, job.at(k).0, running::found_in(job.at(k).0, env).sense)
}

/// What is left of a body once every statement is run.
proof fn lemma_last<S: FactStore>(job: Job, store: S, env: Seq<Option<Fact>>)
    requires
        running_at(job, store, job.order.len(), env),
    ensures
        comes_to(
            job,
            env.len(),
            answers::answers(
                store,
                job.done().1.steps,
                env,
                job.at(job.order.len()).1->0.steps.len(),
            ),
            seq![running::found_in(job.at(job.order.len()).0, env)],
        ),
{
    let w = job.w;
    let k = job.order.len();
    let (last, whole) = job.done();
    let body = whole.steps;
    let (st, found) = job.at(k);
    let built = found->0;
    job.lemma_at(k);
    job.lemma_to_the_end(k);
    assert(body.take(whole.steps.len() as int) =~= whole.steps);
    let filled = running::lemma_fetched(
        w,
        store,
        body,
        st,
        built,
        env,
        w.cx.ast.root().head,
    );
    answers::lemma_step(store, body, filled, body.len());
    running::lemma_found_stays(
        w.cx,
        st,
        running::kinds_of(built.steps),
        env,
        filled,
    );
    assert(running::found_in(last, filled) == running::found_in(st, filled));
}

/// A negation lets a row through where it is denied.
#[verifier::rlimit(30)]
proof fn lemma_negate_step<S: FactStore>(job: Job, store: S, k: nat, env: Seq<Option<Fact>>)
    requires
        running_at(job, store, k, env),
        k < job.order.len(),
        job.stmt(k) is Negate,
    ensures
        ({
            let (st, found) = job.at(k);
            let (next, more) = job.at(k + 1);
            let alts = job.stmt(k)->Negate_0.alternatives@;
            &&& running_at(job, store, k + 1, env)
            &&& running::found_in(next, env) == running::found_in(st, env)
            &&& answers::answers(store, job.done().1.steps, env, found->0.steps.len()) == (
            if reading::denied(job.w, running::found_in(st, env).sense, alts) {
                answers::answers(store, job.done().1.steps, env, more->0.steps.len())
            } else {
                Answers::nothing()
            })
        }),
{
    let w = job.w;
    let (last, whole) = job.done();
    let body = whole.steps;
    let (st, found) = job.at(k);
    let built = found->0;
    job.lemma_at(k);
    job.lemma_at(k + 1);
    job.lemma_to_the_end(k + 1);
    let (next, more) = job.at(k + 1);
    let after = more->0;
    assert(body.take(whole.steps.len() as int) =~= whole.steps);
    assert(running::part_of(whole, body, env));
    running::lemma_part(after, whole, body, env);
    let stmt = job.stmt(k);
    assert(running::proper(w, job.kinds, stmt));
    assert(job.order[k as int] < job.stmts.len());
    assert((next, more) == emitting::emitted_stmt(w.cx, st, built, stmt));
    let alts = stmt->Negate_0.alternatives@;
    let here = built.next();
    let made = emitting::test_sources(w.cx, st, alts, alts.len(), here);
    let sense = matching::sense_of(st.bindings, env);
    running::lemma_test_sources_grow(w.cx, st, alts, alts.len(), here);
    running::lemma_senses(st.bindings, env);
    running::lemma_all_bound(w, sense, st.bindings, alts);
    running::lemma_test_sources(w, sense, st, alts, alts.len(), here);
    running::lemma_test_offers(
        w,
        store,
        st,
        running::kinds_of(built.steps),
        env,
        alts,
        alts.len(),
        here,
    );
    running::lemma_absent(w, store, sense, env, made.sources, alts);
    assert(boxed::boxed(made.sources)@ == made.sources);
    let test = Test::Absent(boxed::boxed(made.sources));
    assert(after == built.with_test(test));
    assert(body[built.steps.len() as int] == body.take(
        after.steps.len() as int,
    )[built.steps.len() as int]);
    answers::lemma_step(store, body, env, built.steps.len());
    assert(next.bindings =~= st.bindings);
    running::lemma_with_test(built, test);
    assert(running::found_in(next, env) == running::found_in(st, env));
    assert(next.constrained =~= st.constrained) by {
        if next.constrained.len() > st.constrained.len() {
            let at = st.constrained.len() as int;
            assert(taking::takes_field(Seq::empty(), made.st.constrained[at]));
        }
        assert(made.st.constrained =~= made.st.constrained.take(st.constrained.len() as int));
    }
}

/// A name for a value follows the references to it, and names what they lead to.
#[verifier::rlimit(40)]
proof fn lemma_alias_step<S: FactStore>(
    job: Job,
    store: S,
    k: nat,
    env: Seq<Option<Fact>>,
) -> (filled: Seq<Option<Fact>>)
    requires
        running_at(job, store, k, env),
        k < job.order.len(),
        job.stmt(k) is Alias,
    ensures
        ({
            let (st, found) = job.at(k);
            let (next, more) = job.at(k + 1);
            let alias = job.stmt(k)->Alias_0;
            let before = running::found_in(st, env);
            &&& filled.len() == env.len()
            &&& running_at(job, store, k + 1, filled)
            &&& running::found_in(next, filled) == (match reading::thing_of(
                job.w,
                before.sense,
                alias.value,
            ) {
                Some(thing) => reading::with_name(job.w, before, alias.pattern, thing),
                None => before,
            })
            &&& answers::answers(store, job.done().1.steps, env, found->0.steps.len())
                == answers::answers(store, job.done().1.steps, filled, more->0.steps.len())
        }),
{
    let w = job.w;
    let (last, whole) = job.done();
    let body = whole.steps;
    let (st, found) = job.at(k);
    let built = found->0;
    job.lemma_at(k);
    job.lemma_at(k + 1);
    job.lemma_to_the_end(k + 1);
    let (next, more) = job.at(k + 1);
    let after = more->0;
    assert(body.take(whole.steps.len() as int) =~= whole.steps);
    assert(running::part_of(whole, body, env));
    running::lemma_part(after, whole, body, env);
    let stmt = job.stmt(k);
    assert(running::proper(w, job.kinds, stmt));
    assert(job.order[k as int] < job.stmts.len());
    assert((next, more) == emitting::emitted_stmt(w.cx, st, built, stmt));
    let alias = stmt->Alias_0;
    let (s1, b1) = emitting::fetch_within(w.cx, st, built, alias.value);
    let (s2, b2) = emitting::fetch_within(w.cx, s1, b1, alias.pattern);
    running::lemma_fetch_more(w.cx, st, built, alias.value);
    running::lemma_fetch_more(w.cx, s1, b1, alias.pattern);
    matching::lemma_resolve_only(w.cx, s2, alias.value);
    let (s3, place) = model::resolve(w.cx, s2, alias.value);
    if let Some(slot) = place {
        running::lemma_bind_only(w.cx, s3, alias.pattern, slot);
    }
    assert(s3.sealed && s2.sealed && s1.sealed);
    running::lemma_fetch_typed(w, st, built, alias.value);
    running::lemma_fetch_typed(w, s1, b1, alias.pattern);
    assert(after == b2);
    running::lemma_part(b1, b2, body, env);
    let half = running::lemma_fetched(
        w,
        store,
        body,
        st,
        built,
        env,
        alias.value,
    );
    let filled = running::lemma_fetched(
        w,
        store,
        body,
        s1,
        b1,
        half,
        alias.pattern,
    );
    running::lemma_reaches(store, body, built, env, b1, half, b2, filled);
    let kinds = running::kinds_of(b2.steps);
    running::lemma_found_stays(
        w.cx,
        st,
        running::kinds_of(built.steps),
        env,
        filled,
    );
    assert(running::found_in(s2, filled) == running::found_in(st, env));
    running::lemma_resolved(w.cx, w, s2, kinds, filled, alias.value);
    running::lemma_resolve_typed(w.cx, s2, kinds, alias.value);
    if let Some(slot) = place {
        running::lemma_bind_typed(w.cx, s3, kinds, alias.pattern, slot);
        running::lemma_bound(w.cx, w, s3, kinds, filled, alias.pattern, slot);
    }
    assert(running::found_in(s3, filled) == running::found_in(s2, filled));
    let before = running::found_in(st, env);
    assert forall|i: int| 0 <= i < next.constrained.len() implies running::obeys(
        w,
        running::found_in(next, filled).sense,
        #[trigger] next.constrained[i],
    ) && model::patterns_of(w.constraints, next.constrained[i]).len() > 0 by {
        assert(running::obeys(w, before.sense, st.constrained[i]));
        if let Some(slot) = place {
            running::lemma_naming_keeps(
                w,
                before,
                alias.pattern,
                matching::thing_in(filled, slot),
                next.constrained[i],
            );
        }
    }
    filled
}

/// The rest of a body answers what the rest of the statements means.
pub proof fn lemma_rows<S: FactStore>(job: Job, store: S, k: nat, env: Seq<Option<Fact>>)
    requires
        running_at(job, store, k, env),
    ensures
        comes_to(
            job,
            env.len(),
            answers::answers(store, job.done().1.steps, env, job.at(k).1->0.steps.len()),
            reading::ways(
                job.w,
                job.stmts,
                job.order,
                k,
                running::found_in(job.at(k).0, env),
            ),
        ),
    decreases job.order.len() - k, 3nat, 0nat,
{
    if k == job.order.len() {
        lemma_last(job, store, env);
    } else {
        match job.stmt(k) {
            Stmt::Scan(scan) => lemma_scan_rows(job, store, k, env),
            Stmt::Negate(tested) => {
                lemma_negate_step(job, store, k, env);
                lemma_rows(job, store, k + 1, env);
            },
            Stmt::Alias(alias) => {
                let filled = lemma_alias_step(job, store, k, env);
                lemma_rows(job, store, k + 1, filled);
            },
            Stmt::Constrain(_) => {
                let stmt = job.stmt(k);
                job.lemma_at(k);
                job.lemma_at(k + 1);
                lemma_rows(job, store, k + 1, env);
            },
        }
    }
}

/// A scan's level over its branches.
#[verifier::rlimit(30)]
proof fn lemma_scan_rows<S: FactStore>(job: Job, store: S, k: nat, env: Seq<Option<Fact>>)
    requires
        running_at(job, store, k, env),
        k < job.order.len(),
        job.stmt(k) is Scan,
    ensures
        comes_to(
            job,
            env.len(),
            answers::answers(store, job.done().1.steps, env, job.at(k).1->0.steps.len()),
            reading::ways(
                job.w,
                job.stmts,
                job.order,
                k,
                running::found_in(job.at(k).0, env),
            ),
        ),
    decreases job.order.len() - k, 2nat, 0nat,
{
    let w = job.w;
    let (last, whole) = job.done();
    let body = whole.steps;
    let (st, found) = job.at(k);
    let built = found->0;
    let scan = job.stmt(k)->Scan_0;
    let alts = scan.alternatives@;
    job.lemma_at(k);
    job.lemma_at(k + 1);
    job.lemma_to_the_end(k + 1);
    let (next, more) = job.at(k + 1);
    let after = more->0;
    assert(body.take(whole.steps.len() as int) =~= whole.steps);
    assert(running::part_of(whole, body, env));
    running::lemma_part(after, whole, body, env);
    let stmt = job.stmt(k);
    assert(running::proper(w, job.kinds, stmt));
    assert(job.order[k as int] < job.stmts.len());
    assert((next, more) == emitting::emitted_stmt(w.cx, st, built, stmt));
    let (s1, b1) = emitting::fetch_alts(w.cx, st, built, alts, alts.len());
    running::lemma_fetch_more_alts(w.cx, st, built, alts, alts.len());
    let here = b1.next();
    let made = emitting::scan_sources(w.cx, s1, alts, alts.len(), here, s1.bindings.len());
    running::lemma_scan_sources_grow(w.cx, s1, alts, alts.len(), here, s1.bindings.len());
    running::lemma_fetch_alts_typed(w, st, built, alts, alts.len());
    let level = Level { sources: boxed::boxed(made.sources), binds: boxed::boxed(seq![here]) };
    running::lemma_with_level(b1, level);
    assert(after == b1.with_level(level));
    running::lemma_part(b1, after, body, env);
    let filled = running::lemma_fetched_alts(
        w,
        store,
        body,
        st,
        built,
        env,
        alts,
        alts.len(),
    );
    let kinds = running::kinds_of(b1.steps);
    running::lemma_found_stays(
        w.cx,
        st,
        running::kinds_of(built.steps),
        env,
        filled,
    );
    assert(running::found_in(s1, filled) == running::found_in(st, env));
    running::lemma_scan_offers(
        w,
        store,
        s1,
        kinds,
        filled,
        alts,
        alts.len(),
        here,
    );
    assert(level.sources@ == made.sources);
    assert(level.binds@ == seq![here]);
    assert(body[b1.steps.len() as int] == body.take(
        after.steps.len() as int,
    )[b1.steps.len() as int]);
    answers::lemma_step(store, body, filled, b1.steps.len());
    assert(made.sources.skip(0) =~= made.sources);
    assert(alts.skip(0) =~= alts);
    lemma_alt_rows(job, store, k, filled, 0);
}

/// The state, the body and the branches a scan's level is built from.
spec fn scan_of(job: Job, k: nat) -> (St, Built, emitting::Sources) {
    let alts = job.stmt(k)->Scan_0.alternatives@;
    let (s1, b1) = emitting::fetch_alts(job.w.cx, job.at(k).0, job.at(k).1->0, alts, alts.len());
    (
        s1,
        b1,
        emitting::scan_sources(job.w.cx, s1, alts, alts.len(), b1.next(), s1.bindings.len()),
    )
}

/// What a scan's level is run with.
spec fn scanning<S: FactStore>(job: Job, store: S, k: nat, env: Seq<Option<Fact>>) -> bool {
    let (s1, b1, made) = scan_of(job, k);
    let (last, whole) = job.done();
    let scan = job.stmt(k)->Scan_0;
    let alts = scan.alternatives@;
    &&& job.ready()
    &&& running::reads(job.w, store)
    &&& matching::well_typed(job.w.cx, job.w.names, store)
    &&& k < job.order.len()
    &&& !dead(job.stmts, job.order, k)
    &&& job.stmt(k) is Scan
    &&& whole.levels <= env.len()
    &&& running::fits(job.w.cx, job.w, s1, running::kinds_of(b1.steps), env)
    &&& running::told(job.w.cx, s1, running::kinds_of(b1.steps))
    &&& running::obeyed(job.w, s1, running::found_in(s1, env).sense)
    &&& running::counted(b1)
    &&& b1.levels < whole.levels
    &&& b1.steps.len() < whole.steps.len()
    &&& made.sources.len() == alts.len()
    &&& running::found_in(s1, env).sense == matching::sense_of(s1.bindings, env)
    &&& forall|i: int|
        0 <= i < alts.len() ==> answers::offered(store, env, #[trigger] made.sources[i]) == (
        Offer {
            facts: reading::matched(job.w, matching::sense_of(s1.bindings, env), alts[i]),
            error: None,
        })
}

/// The branches from the `i`th on.
#[verifier::rlimit(30)]
proof fn lemma_alt_rows<S: FactStore>(
    job: Job,
    store: S,
    k: nat,
    env: Seq<Option<Fact>>,
    i: nat,
)
    requires
        scanning(job, store, k, env),
        i <= job.stmt(k)->Scan_0.alternatives@.len(),
    ensures
        ({
            let (s1, b1, made) = scan_of(job, k);
            let scan = job.stmt(k)->Scan_0;
            comes_to(
                job,
                env.len(),
                answers::over_sources(
                    store,
                    job.done().1.steps,
                    env,
                    b1.steps.len(),
                    made.sources.skip(i as int),
                    seq![b1.next()],
                ),
                reading::over_alts(
                    job.w,
                    job.stmts,
                    job.order,
                    k,
                    running::found_in(s1, env),
                    scan.alternatives@.skip(i as int),
                    scan,
                ),
            )
        }),
    decreases job.order.len() - k, 1nat, job.stmt(k)->Scan_0.alternatives@.len() - i,
{
    let (s1, b1, made) = scan_of(job, k);
    let scan = job.stmt(k)->Scan_0;
    let alts = scan.alternatives@;
    let (sources, left) = (made.sources.skip(i as int), alts.skip(i as int));
    let body = job.done().1.steps;
    answers::lemma_source(store, body, env, b1.steps.len(), sources, seq![b1.next()]);
    if i < alts.len() {
        assert(sources[0] == made.sources[i as int]);
        assert(left[0] == alts[i as int]);
        assert(sources.skip(1) =~= made.sources.skip(i as int + 1));
        assert(left.skip(1) =~= alts.skip(i as int + 1));
        lemma_alt_rows(job, store, k, env, i + 1);
        let facts = reading::matched(job.w, matching::sense_of(s1.bindings, env), alts[i as int]);
        assert(facts.skip(0) =~= facts);
        lemma_fact_rows(job, store, k, env, i, 0);
        lemma_comes_chain(
            job,
            env.len(),
            answers::over_offer(
                store,
                body,
                env,
                b1.steps.len(),
                seq![b1.next()],
                answers::offered(store, env, sources[0]),
            ),
            answers::over_sources(
                store,
                body,
                env,
                b1.steps.len(),
                sources.skip(1),
                seq![b1.next()],
            ),
            reading::over_facts(
                job.w,
                job.stmts,
                job.order,
                k,
                running::found_in(s1, env),
                left[0],
                scan,
                facts,
            ),
            reading::over_alts(
                job.w,
                job.stmts,
                job.order,
                k,
                running::found_in(s1, env),
                left.skip(1),
                scan,
            ),
        );
    }
}

/// The facts one branch matches, from the `j`th on.
#[verifier::rlimit(30)]
proof fn lemma_fact_rows<S: FactStore>(
    job: Job,
    store: S,
    k: nat,
    env: Seq<Option<Fact>>,
    i: nat,
    j: nat,
)
    requires
        scanning(job, store, k, env),
        i < job.stmt(k)->Scan_0.alternatives@.len(),
        j <= reading::matched(
            job.w,
            matching::sense_of(scan_of(job, k).0.bindings, env),
            job.stmt(k)->Scan_0.alternatives@[i as int],
        ).len(),
    ensures
        ({
            let (s1, b1, made) = scan_of(job, k);
            let scan = job.stmt(k)->Scan_0;
            let facts = reading::matched(
                job.w,
                matching::sense_of(s1.bindings, env),
                scan.alternatives@[i as int],
            );
            comes_to(
                job,
                env.len(),
                answers::over_offer(
                    store,
                    job.done().1.steps,
                    env,
                    b1.steps.len(),
                    seq![b1.next()],
                    Offer { facts: facts.skip(j as int), error: None },
                ),
                reading::over_facts(
                    job.w,
                    job.stmts,
                    job.order,
                    k,
                    running::found_in(s1, env),
                    scan.alternatives@[i as int],
                    scan,
                    facts.skip(j as int),
                ),
            )
        }),
    decreases
            job.order.len() - k,
            0nat,
            reading::matched(
                job.w,
                matching::sense_of(scan_of(job, k).0.bindings, env),
                job.stmt(k)->Scan_0.alternatives@[i as int],
            ).len() - j,
{
    let (s1, b1, made) = scan_of(job, k);
    let w = job.w;
    let scan = job.stmt(k)->Scan_0;
    let alts = scan.alternatives@;
    let facts = reading::matched(w, matching::sense_of(s1.bindings, env), alts[i as int]);
    let left = facts.skip(j as int);
    let offer = Offer { facts: left, error: None };
    let body = job.done().1.steps;
    let here = b1.next();
    answers::lemma_row(store, body, env, b1.steps.len(), seq![here], offer);
    if j < facts.len() {
        let fact = left[0];
        assert(fact == facts[j as int]);
        assert(left.skip(1) =~= facts.skip(j as int + 1));
        lemma_fact_rows(job, store, k, env, i, j + 1);
        reveal_with_fuel(machine::stray, 2);
        let filled = machine::bound(env, seq![here], fact);
        lemma_entered(job, store, k, env, i, fact);
        lemma_rows(job, store, k + 1, filled);
        lemma_comes_chain(
            job,
            env.len(),
            answers::answers(store, body, filled, b1.steps.len() + 1),
            answers::over_offer(
                store,
                body,
                env,
                b1.steps.len(),
                seq![here],
                answers::past(offer),
            ),
            reading::ways(
                w,
                job.stmts,
                job.order,
                k + 1,
                reading::with_fact(
                    w,
                    running::found_in(s1, env),
                    scan,
                    alts[i as int],
                    fact,
                ),
            ),
            reading::over_facts(
                w,
                job.stmts,
                job.order,
                k,
                running::found_in(s1, env),
                alts[i as int],
                scan,
                left.skip(1),
            ),
        );
    }
}

/// A scan that is on a fact.
#[verifier::rlimit(30)]
proof fn lemma_entered<S: FactStore>(
    job: Job,
    store: S,
    k: nat,
    env: Seq<Option<Fact>>,
    i: nat,
    fact: Fact,
)
    requires
        scanning(job, store, k, env),
        i < job.stmt(k)->Scan_0.alternatives@.len(),
        reading::matched(
            job.w,
            matching::sense_of(scan_of(job, k).0.bindings, env),
            job.stmt(k)->Scan_0.alternatives@[i as int],
        ).contains(fact),
    ensures
        ({
            let (s1, b1, made) = scan_of(job, k);
            let scan = job.stmt(k)->Scan_0;
            let filled = machine::bound(env, seq![b1.next()], fact);
            let (next, more) = job.at(k + 1);
            &&& filled.len() == env.len()
            &&& more is Some
            &&& more->0.steps.len() == b1.steps.len() + 1
            &&& running::fits(
                job.w.cx,
                job.w,
                next,
                running::kinds_of(more->0.steps),
                filled,
            )
            &&& !dead(job.stmts, job.order, k + 1)
            &&& running::obeyed(job.w, next, running::found_in(next, filled).sense)
            &&& running::found_in(next, filled) == reading::with_fact(
                job.w,
                running::found_in(s1, env),
                scan,
                scan.alternatives@[i as int],
                fact,
            )
        }),
{
    let (s1, b1, made) = scan_of(job, k);
    let w = job.w;
    let scan = job.stmt(k)->Scan_0;
    let alts = scan.alternatives@;
    let here = b1.next();
    let sense = matching::sense_of(s1.bindings, env);
    job.lemma_at(k);
    job.lemma_at(k + 1);
    let (st, found) = job.at(k);
    let (next, more) = job.at(k + 1);
    let stmt = job.stmt(k);
    assert(running::proper(w, job.kinds, stmt));
    assert(job.order[k as int] < job.stmts.len());
    assert((next, more) == emitting::emitted_stmt(w.cx, st, found->0, stmt));
    running::lemma_fetch_more_alts(w.cx, st, found->0, alts, alts.len());
    running::lemma_scan_sources_grow(w.cx, s1, alts, alts.len(), here, s1.bindings.len());
    running::lemma_senses(s1.bindings, env);
    running::lemma_scan_sources(w, sense, s1, alts, alts.len(), here);
    let level = Level { sources: boxed::boxed(made.sources), binds: boxed::boxed(seq![here]) };
    running::lemma_with_level(b1, level);
    assert(more->0 == b1.with_level(level));
    assert(level.sources@ == made.sources);
    let kinds = running::kinds_of(b1.steps);
    let kind = running::predicates(made.sources);
    let taken = reading::bindings(w, sense, scan);
    assert(next == running::after_scan(s1, made.st, here, taken, alts, scan.row));
    running::lemma_after_marks(w, job.kinds, sense, s1, made.st, here, alts, scan.row);
    let asked = |f: Fact| reading::matches(w, sense, alts[i as int], f);
    let facts = w.facts.filter(asked);
    let at = choose|at: int| 0 <= at < facts.len() && facts[at] == fact;
    w.facts.lemma_filter_pred(asked, at);
    w.facts.lemma_filter_contains_rev(asked, fact);
    assert(reading::matches(w, sense, alts[i as int], fact));
    assert(w.facts.contains(fact));
    let index = choose|index: int| 0 <= index < w.facts.len() && w.facts[index] == fact;
    assert(store.facts()[index] == fact);
    assert(w.cx.schema.predicate(alts[i as int].predicate) is Some);
    assert(matching::of_predicate(w.cx, w.names, fact, alts[i as int].predicate));
    assert(kind[i as int] == alts[i as int].predicate) by {
        assert(made.sources[i as int].predicate() == alts[i as int].predicate);
    }
    assert(running::of_any(w.cx, s1.names, fact, kind));
    running::lemma_bound_fits(w, s1, next, kinds, env, kind, here, fact);
    let filled = machine::bound(env, seq![here], fact);
    running::lemma_scan_found(
        w,
        job.kinds,
        s1,
        made.st,
        kinds,
        env,
        filled,
        here,
        scan,
        i as int,
        fact,
    );
    running::lemma_scan_obeys(
        w,
        job.kinds,
        s1,
        next,
        running::found_in(s1, env),
        scan,
        i as int,
        fact,
    );
}

} // verus!
