//! What running a plan means: nested loops over the key index, one per level, in index
//! order; and where such a run stands between two rows.
use vstd::prelude::*;

use crate::bytes;
use crate::error::{ApertureError, StoreError};
use crate::iter::Address;
use crate::plan;
use crate::plan::{Fact, Generator, Residual, ResidualOp, SeekKey, SeekKeyPart};
use crate::tuple;

verus! {

// ---- registers --------------------------------------------------------------

/// What a register holds, or why nothing can be read out of it.
pub open spec fn held(env: Seq<Option<Fact>>, address: Address) -> Result<Fact, ApertureError> {
    if address.0 >= env.len() {
        Err(ApertureError::AddressOutOfBounds(address))
    } else {
        match env[address.0 as int] {
            Some(fact) => Ok(fact),
            None => Err(ApertureError::UseBeforeBind(address)),
        }
    }
}

/// Every register empty.
pub open spec fn unbound(nvars: nat) -> Seq<Option<Fact>> {
    Seq::new(nvars, |i: int| None::<Fact>)
}

/// The registers after a row was bound to each of `binds`.
pub open spec fn bound(env: Seq<Option<Fact>>, binds: Seq<Address>, fact: Fact) -> Seq<
    Option<Fact>,
> {
    Seq::new(
        env.len(),
        |i: int|
            if binds.contains(Address(i as usize)) {
                Some(fact)
            } else {
                env[i]
            },
    )
}

/// The first of `binds`, from `k` on, that is not a register.
pub open spec fn stray(binds: Seq<Address>, nvars: nat, k: nat) -> Option<Address>
    decreases binds.len() - k,
{
    if k >= binds.len() {
        None
    } else if binds[k as int].0 >= nvars {
        Some(binds[k as int])
    } else {
        stray(binds, nvars, k + 1)
    }
}

// ---- opening a level --------------------------------------------------------

/// The bytes one part of a seek comes to.
pub open spec fn part_bytes(env: Seq<Option<Fact>>, part: SeekKeyPart) -> Result<
    Seq<u8>,
    ApertureError,
> {
    match part {
        SeekKeyPart::Bytes(bytes) => Ok(bytes@),
        SeekKeyPart::RegisterField { address, path } => match held(env, address) {
            Ok(fact) => tuple::path_bytes(fact.key(), path@),
            Err(e) => Err(e),
        },
        SeekKeyPart::RegisterFactId(address) => match held(env, address) {
            Ok(fact) => Ok(tuple::enc_fact(fact.id)),
            Err(e) => Err(e),
        },
    }
}

/// The bytes of the first `k` parts, back to back.
pub open spec fn parts_bytes(env: Seq<Option<Fact>>, parts: Seq<SeekKeyPart>, k: nat) -> Result<
    Seq<u8>,
    ApertureError,
>
    decreases k,
{
    if k == 0 {
        Ok(Seq::empty())
    } else {
        match parts_bytes(env, parts, (k - 1) as nat) {
            Ok(before) => match part_bytes(env, parts[k - 1]) {
                Ok(bytes) => Ok(before + bytes),
                Err(e) => Err(e),
            },
            Err(e) => Err(e),
        }
    }
}

/// What every row of a level begins with: its predicate, then its seek.
pub open spec fn prefix(env: Seq<Option<Fact>>, level: Generator) -> Result<
    Seq<u8>,
    ApertureError,
> {
    let predicate = tuple::big_endian(level.access.predicate_id.0 as nat, 4);
    match level.access.seek_key {
        SeekKey::Prefix(bytes) => Ok(predicate + bytes@),
        SeekKey::Composite(parts) => match parts_bytes(env, parts@, parts@.len()) {
            Ok(bytes) => Ok(predicate + bytes),
            Err(e) => Err(e),
        },
    }
}

/// The facts a level ranges over, in order: those whose rows begin with its prefix.
pub open spec fn matching(facts: Seq<Fact>, prefix: Seq<u8>) -> Seq<Fact> {
    facts.filter(|f: Fact| bytes::begins_with(f.row, prefix))
}

// ---- filtering --------------------------------------------------------------

/// Whether a field passes a filter.
pub open spec fn holds(env: Seq<Option<Fact>>, field: Seq<u8>, op: ResidualOp) -> Result<
    bool,
    ApertureError,
> {
    match op {
        ResidualOp::EqConst(bytes) => Ok(field == bytes@),
        ResidualOp::Prefix(bytes) => Ok(bytes::begins_with(field, bytes@)),
        ResidualOp::EqRegisterField { address, path } => match held(env, address) {
            Ok(fact) => match tuple::path_bytes(fact.key(), path@) {
                Ok(other) => Ok(field == other),
                Err(e) => Err(e),
            },
            Err(e) => Err(e),
        },
        ResidualOp::EqRegisterFactId(address) => match held(env, address) {
            Ok(fact) => Ok(field == tuple::enc_fact(fact.id)),
            Err(e) => Err(e),
        },
    }
}

/// Whether a row passes one filter.
pub open spec fn passes_one(env: Seq<Option<Fact>>, filter: Residual, fact: Fact) -> Result<
    bool,
    ApertureError,
> {
    match tuple::path_bytes(fact.key(), filter.path@) {
        Ok(field) => holds(env, field, filter.op),
        Err(e) => Err(e),
    }
}

/// Whether a row passes the first `k` filters. The first it does not pass, or that
/// cannot be read, decides.
pub open spec fn passes(
    env: Seq<Option<Fact>>,
    filters: Seq<Residual>,
    fact: Fact,
    k: nat,
) -> Result<bool, ApertureError>
    decreases k,
{
    if k == 0 {
        Ok(true)
    } else {
        match passes(env, filters, fact, (k - 1) as nat) {
            Ok(true) => passes_one(env, filters[k - 1], fact),
            other => other,
        }
    }
}

/// Whether a row passes a level's filters.
pub open spec fn admits(env: Seq<Option<Fact>>, level: Generator, fact: Fact) -> Result<
    bool,
    ApertureError,
> {
    passes(env, level.residuals@, fact, level.residuals@.len())
}

// ---- running ----------------------------------------------------------------

/// The registers of each row a run yields, in order; the error that ends it, if one
/// does; and how many steps the machine takes.
#[verifier::ext_equal]
pub struct Run {
    pub rows: Seq<Seq<Option<Fact>>>,
    pub error: Option<ApertureError>,
    pub steps: nat,
}

impl Run {
    pub open spec fn nothing() -> Run {
        Run { rows: Seq::empty(), error: None, steps: 0 }
    }

    pub open spec fn failing(error: ApertureError) -> Run {
        Run { rows: Seq::empty(), error: Some(error), steps: 1 }
    }

    /// One run, and then another. An error ends it.
    pub open spec fn chain(self, next: Run) -> Run {
        if self.error is Some {
            self
        } else {
            Run {
                rows: self.rows + next.rows,
                error: next.error,
                steps: self.steps + next.steps,
            }
        }
    }

    /// The same, a step later.
    pub open spec fn after_a_step(self) -> Run {
        Run { steps: self.steps + 1, ..self }
    }
}

/// A plan's body run against a key index, from level `k` on.
pub open spec fn run(facts: Seq<Fact>, body: Seq<Generator>, env: Seq<Option<Fact>>, k: nat) -> Run
    decreases body.len() - k, 1nat, 0nat,
{
    if k >= body.len() {
        Run { rows: seq![env], error: None, steps: 1 }
    } else {
        match prefix(env, body[k as int]) {
            Ok(p) => run_rows(facts, body, env, k, matching(facts, p)).after_a_step(),
            Err(e) => Run::failing(e),
        }
    }
}

/// Level `k` over the candidates it has left.
pub open spec fn run_rows(
    facts: Seq<Fact>,
    body: Seq<Generator>,
    env: Seq<Option<Fact>>,
    k: nat,
    left: Seq<Fact>,
) -> Run
    decreases body.len() - k, 0nat, left.len(),
{
    if k >= body.len() {
        Run::nothing()
    } else if left.len() == 0 {
        Run { rows: Seq::empty(), error: None, steps: 1 }
    } else {
        let level = body[k as int];
        let rest = run_rows(facts, body, env, k, left.skip(1));
        match admits(env, level, left[0]) {
            Err(e) => Run::failing(e),
            Ok(false) => rest.after_a_step(),
            Ok(true) => match stray(level.binds@, env.len(), 0) {
                Some(address) => Run::failing(ApertureError::AddressOutOfBounds(address)),
                None => run(facts, body, bound(env, level.binds@, left[0]), k + 1).chain(
                    rest,
                ).after_a_step(),
            },
        }
    }
}

// ---- where a run stands -----------------------------------------------------

/// Where a run stands: the row each outer level is on and what it has left, and what
/// the level under way has left, if it has been opened. `last` is the row that level
/// was on last.
#[verifier::ext_equal]
pub struct Place {
    pub stack: Seq<Fact>,
    pub rest: Seq<Seq<Fact>>,
    pub open: Option<Seq<Fact>>,
    pub last: Option<Fact>,
}

/// The registers as the rows of the first `k` levels bind them.
pub open spec fn env_of(body: Seq<Generator>, nvars: nat, stack: Seq<Fact>, k: nat) -> Seq<
    Option<Fact>,
>
    decreases k,
{
    if k == 0 {
        unbound(nvars)
    } else {
        bound(
            env_of(body, nvars, stack, (k - 1) as nat),
            body[k - 1].binds@,
            stack[k - 1],
        )
    }
}

/// What the outer `k` levels have left once the inner ones are done.
pub open spec fn unwound(
    facts: Seq<Fact>,
    body: Seq<Generator>,
    nvars: nat,
    stack: Seq<Fact>,
    rest: Seq<Seq<Fact>>,
    k: nat,
) -> Run
    decreases k,
{
    if k == 0 {
        Run::nothing()
    } else {
        run_rows(
            facts,
            body,
            env_of(body, nvars, stack, (k - 1) as nat),
            (k - 1) as nat,
            rest[k - 1],
        ).chain(unwound(facts, body, nvars, stack, rest, (k - 1) as nat))
    }
}

impl Place {
    /// The level under way.
    pub open spec fn depth(self) -> nat {
        self.stack.len()
    }

    /// Before the first step.
    pub open spec fn start() -> Place {
        Place { stack: Seq::empty(), rest: Seq::empty(), open: None, last: None }
    }

    /// The registers as the outer rows bind them.
    pub open spec fn env(self, body: Seq<Generator>, nvars: nat) -> Seq<Option<Fact>> {
        env_of(body, nvars, self.stack, self.depth())
    }

    /// Everything the run has yet to do from here.
    pub open spec fn pending(self, facts: Seq<Fact>, body: Seq<Generator>, nvars: nat) -> Run {
        let env = self.env(body, nvars);
        (match self.open {
            None => run(facts, body, env, self.depth()),
            Some(left) => run_rows(facts, body, env, self.depth(), left),
        }).chain(unwound(facts, body, nvars, self.stack, self.rest, self.depth()))
    }

    /// The level is opened over `candidates`.
    pub open spec fn opened(self, candidates: Seq<Fact>) -> Place {
        Place { open: Some(candidates), last: None, ..self }
    }

    /// The level passes over its next candidate.
    pub open spec fn passed_over(self) -> Place {
        Place { open: Some(self.open->0.skip(1)), ..self }
    }

    /// The level takes its next candidate, and the one inside it is next.
    pub open spec fn entered(self) -> Place {
        Place {
            stack: self.stack.push(self.open->0[0]),
            rest: self.rest.push(self.open->0.skip(1)),
            open: None,
            last: None,
        }
    }

    /// Back to the level outside, which goes on with what it has left.
    pub open spec fn left(self) -> Place {
        Place {
            stack: self.stack.drop_last(),
            rest: self.rest.drop_last(),
            open: Some(self.rest.last()),
            last: Some(self.stack.last()),
        }
    }

    /// A place a run of the body can stand at: every outer level could be opened and is
    /// on a row it admits, and no level has more left than there are facts.
    pub open spec fn wf(self, facts: Seq<Fact>, body: Seq<Generator>, nvars: nat) -> bool {
        &&& self.depth() <= body.len()
        &&& self.rest.len() == self.stack.len()
        &&& self.open matches Some(left) ==> {
            &&& self.depth() < body.len()
            &&& prefix(self.env(body, nvars), body[self.depth() as int]) is Ok
            &&& left.len() <= facts.len()
        }
        &&& forall|i: int|
            0 <= i < self.depth() ==> #[trigger] on_a_row(
                body,
                nvars,
                self.stack,
                i as nat,
            ) && self.rest[i].len() <= facts.len()
    }

    /// Every level is on one of its own candidates, with the ones after it left.
    pub open spec fn faithful(self, facts: Seq<Fact>, body: Seq<Generator>, nvars: nat) -> bool {
        &&& self.open matches Some(left) ==> is_tail(
            left,
            candidates(facts, body, nvars, self.stack, self.depth()),
        )
        &&& forall|i: int|
            0 <= i < self.depth() ==> #[trigger] on_a_candidate(
                facts,
                body,
                nvars,
                self.stack,
                i as nat,
                self.rest[i],
            )
    }
}

/// Whether `a` is what is left of `b` from some point on.
pub open spec fn is_tail(a: Seq<Fact>, b: Seq<Fact>) -> bool {
    a.len() <= b.len() && a == b.skip(b.len() - a.len())
}

/// Level `i` could be opened, and admits its row of `stack`.
pub open spec fn on_a_row(body: Seq<Generator>, nvars: nat, stack: Seq<Fact>, i: nat) -> bool {
    let env = env_of(body, nvars, stack, i);
    &&& prefix(env, body[i as int]) is Ok
    &&& admits(env, body[i as int], stack[i as int]) == Ok::<bool, ApertureError>(true)
    &&& stray(body[i as int].binds@, nvars, 0) is None
}

/// The candidates of level `i`, the outer levels being on the rows of `stack`.
pub open spec fn candidates(
    facts: Seq<Fact>,
    body: Seq<Generator>,
    nvars: nat,
    stack: Seq<Fact>,
    i: nat,
) -> Seq<Fact> {
    matching(facts, prefix(env_of(body, nvars, stack, i), body[i as int])->Ok_0)
}

/// Level `i` is on one of its candidates, with `left` to come.
pub open spec fn on_a_candidate(
    facts: Seq<Fact>,
    body: Seq<Generator>,
    nvars: nat,
    stack: Seq<Fact>,
    i: nat,
    left: Seq<Fact>,
) -> bool {
    let all = candidates(facts, body, nvars, stack, i);
    &&& all.contains(stack[i as int])
    &&& left == after(all, stack[i as int])
}

/// The candidates after `fact`.
pub open spec fn after(candidates: Seq<Fact>, fact: Fact) -> Seq<Fact>
    decreases candidates.len(),
{
    if candidates.len() == 0 {
        Seq::empty()
    } else if candidates[0] == fact {
        candidates.skip(1)
    } else {
        after(candidates.skip(1), fact)
    }
}

// ---- lemmas: registers ------------------------------------------------------

pub proof fn lemma_env_len(body: Seq<Generator>, nvars: nat, stack: Seq<Fact>, k: nat)
    ensures
        env_of(body, nvars, stack, k).len() == nvars,
    decreases k,
{
    if k > 0 {
        lemma_env_len(body, nvars, stack, (k - 1) as nat);
    }
}

/// The registers of the first `k` levels depend on the first `k` rows only.
pub proof fn lemma_env_prefix(
    body: Seq<Generator>,
    nvars: nat,
    a: Seq<Fact>,
    b: Seq<Fact>,
    k: nat,
)
    requires
        k <= a.len(),
        k <= b.len(),
        forall|i: int| 0 <= i < k ==> a[i] == b[i],
    ensures
        env_of(body, nvars, a, k) == env_of(body, nvars, b, k),
    decreases k,
{
    if k > 0 {
        lemma_env_prefix(body, nvars, a, b, (k - 1) as nat);
    }
}

pub proof fn lemma_unwound_prefix(
    facts: Seq<Fact>,
    body: Seq<Generator>,
    nvars: nat,
    a: Seq<Fact>,
    ra: Seq<Seq<Fact>>,
    b: Seq<Fact>,
    rb: Seq<Seq<Fact>>,
    k: nat,
)
    requires
        k <= a.len(),
        k <= b.len(),
        k <= ra.len(),
        k <= rb.len(),
        forall|i: int| 0 <= i < k ==> a[i] == b[i] && ra[i] == rb[i],
    ensures
        unwound(facts, body, nvars, a, ra, k) == unwound(facts, body, nvars, b, rb, k),
    decreases k,
{
    if k > 0 {
        lemma_env_prefix(body, nvars, a, b, (k - 1) as nat);
        lemma_unwound_prefix(facts, body, nvars, a, ra, b, rb, (k - 1) as nat);
    }
}

// ---- lemmas: candidates -----------------------------------------------------

/// Filtering by predicates that agree on every element gives the same elements.
proof fn lemma_filter_agrees(s: Seq<Fact>, p: spec_fn(Fact) -> bool, q: spec_fn(Fact) -> bool)
    requires
        forall|i: int| 0 <= i < s.len() ==> p(#[trigger] s[i]) == q(s[i]),
    ensures
        s.filter(p) == s.filter(q),
    decreases s.len(),
{
    reveal(Seq::filter);
    if s.len() > 0 {
        let t = s.drop_last();
        assert forall|i: int| 0 <= i < t.len() implies p(#[trigger] t[i]) == q(t[i]) by {
            assert(t[i] == s[i]);
        }
        lemma_filter_agrees(t, p, q);
        assert(p(s[s.len() - 1]) == q(s[s.len() - 1]));
    }
}

/// Filtering twice is filtering by both.
proof fn lemma_filter_twice(s: Seq<Fact>, p: spec_fn(Fact) -> bool, q: spec_fn(Fact) -> bool)
    ensures
        s.filter(p).filter(q) == s.filter(|f: Fact| p(f) && q(f)),
    decreases s.len(),
{
    reveal(Seq::filter);
    if s.len() > 0 {
        lemma_filter_twice(s.drop_last(), p, q);
        let t = s.drop_last().filter(p);
        if p(s.last()) {
            assert(t.push(s.last()).drop_last() =~= t);
        }
    }
}

/// What is filtered out of sorted facts is sorted, and every one of it passes.
pub proof fn lemma_filter_sorted(s: Seq<Fact>, p: spec_fn(Fact) -> bool)
    requires
        plan::sorted(s),
    ensures
        plan::sorted(s.filter(p)),
        forall|i: int| 0 <= i < s.filter(p).len() ==> p(#[trigger] s.filter(p)[i]) && s.contains(
            s.filter(p)[i],
        ),
    decreases s.len(),
{
    reveal(Seq::filter);
    if s.len() > 0 {
        let t = s.drop_last();
        assert(plan::sorted(t)) by {
            assert forall|i: int, j: int|
                #![trigger t[i], t[j]]
                0 <= i < j < t.len() implies bytes::lex_lt(t[i].row, t[j].row) by {
                assert(t[i] == s[i] && t[j] == s[j]);
            }
        }
        lemma_filter_sorted(t, p);
        let u = t.filter(p);
        let v = s.filter(p);
        assert forall|i: int| 0 <= i < v.len() implies p(#[trigger] v[i]) && s.contains(v[i]) by {
            if i < u.len() {
                assert(v[i] == u[i]);
                assert(t.contains(u[i]));
                let j = choose|j: int| 0 <= j < t.len() && t[j] == u[i];
                assert(s[j] == u[i]);
            } else {
                assert(v[i] == s[s.len() - 1]);
            }
        }
        assert forall|i: int, j: int|
            #![trigger v[i], v[j]]
            0 <= i < j < v.len() implies bytes::lex_lt(v[i].row, v[j].row) by {
            assert(v[i] == u[i]);
            if j < u.len() {
                assert(v[j] == u[j]);
            } else {
                assert(t.contains(u[i]));
                let n = choose|n: int| 0 <= n < t.len() && t[n] == u[i];
                assert(s[n] == u[i]);
                assert(v[j] == s[s.len() - 1]);
            }
        }
    }
}

/// A level's candidates are sorted, begin with its prefix, and are facts of the store.
pub proof fn lemma_matching_sorted(facts: Seq<Fact>, p: Seq<u8>)
    requires
        plan::sorted(facts),
    ensures
        plan::sorted(matching(facts, p)),
        forall|i: int|
            0 <= i < matching(facts, p).len() ==> bytes::begins_with(
                (#[trigger] matching(facts, p)[i]).row,
                p,
            ) && facts.contains(matching(facts, p)[i]),
{
    lemma_filter_sorted(facts, |f: Fact| bytes::begins_with(f.row, p));
}

/// A prefix's range is the rows that begin with it.
pub proof fn lemma_between_is_matching(facts: Seq<Fact>, p: Seq<u8>)
    requires
        p.len() >= 4,
    ensures
        plan::between(facts, p, bytes::successor(p)) == matching(facts, p),
{
    assert forall|i: int| 0 <= i < facts.len() implies plan::in_range(
        (#[trigger] facts[i]).row,
        p,
        bytes::successor(p),
    ) == bytes::begins_with(facts[i].row, p) by {
        let row = facts[i].row;
        bytes::law_prefix_is_a_range(p, row);
        if bytes::begins_with(row, p) {
            assert(row.take(4) =~= p.take(4)) by {
                assert(row.take(p.len() as int).take(4) =~= row.take(4));
            }
        }
    }
    lemma_filter_agrees(
        facts,
        |f: Fact| plan::in_range(f.row, p, bytes::successor(p)),
        |f: Fact| bytes::begins_with(f.row, p),
    );
}

/// In sorted facts, what comes after the one at `i` is what stands behind it.
pub proof fn lemma_after(all: Seq<Fact>, i: int)
    requires
        plan::sorted(all),
        0 <= i < all.len(),
    ensures
        after(all, all[i]) == all.skip(i + 1),
        all.contains(all[i]),
    decreases all.len(),
{
    if i > 0 {
        bytes::lemma_lex_irreflexive(all[i].row);
        assert(bytes::lex_lt(all[0].row, all[i].row));
        let t = all.skip(1);
        assert(plan::sorted(t)) by {
            assert forall|a: int, b: int|
                #![trigger t[a], t[b]]
                0 <= a < b < t.len() implies bytes::lex_lt(t[a].row, t[b].row) by {
                assert(t[a] == all[a + 1] && t[b] == all[b + 1]);
            }
        }
        lemma_after(t, i - 1);
        assert(t[i - 1] == all[i]);
        assert(t.skip(i) =~= all.skip(i + 1));
    }
}

proof fn lemma_after_is_tail(all: Seq<Fact>, fact: Fact)
    ensures
        is_tail(after(all, fact), all),
    decreases all.len(),
{
    if all.len() > 0 {
        if all[0] != fact {
            let t = all.skip(1);
            lemma_after_is_tail(t, fact);
            let a = after(t, fact);
            assert(t.skip(t.len() - a.len()) =~= all.skip(all.len() - a.len()));
        }
    } else {
        assert(all.skip(0) =~= Seq::<Fact>::empty());
    }
}

/// Scanning on from a candidate's own row gives that candidate and the ones after it.
pub proof fn lemma_scan_from(facts: Seq<Fact>, p: Seq<u8>, fact: Fact)
    requires
        plan::sorted(facts),
        p.len() >= 4,
        matching(facts, p).contains(fact),
    ensures
        plan::between(facts, fact.row, bytes::successor(p)) == seq![fact] + after(
            matching(facts, p),
            fact,
        ),
{
    let all = matching(facts, p);
    lemma_matching_sorted(facts, p);
    let i = choose|i: int| 0 <= i < all.len() && all[i] == fact;
    assert(bytes::begins_with(all[i].row, p));
    let within = |f: Fact| bytes::begins_with(f.row, p);
    let from = |f: Fact| bytes::lex_le(fact.row, f.row);
    assert forall|j: int| 0 <= j < facts.len() implies plan::in_range(
        (#[trigger] facts[j]).row,
        fact.row,
        bytes::successor(p),
    ) == (within(facts[j]) && from(facts[j])) by {
        let row = facts[j].row;
        bytes::law_prefix_is_a_range(p, row);
        bytes::law_prefix_is_a_range(p, fact.row);
        assert(fact.row.take(4) =~= p.take(4)) by {
            assert(fact.row.take(p.len() as int).take(4) =~= fact.row.take(4));
        }
        if bytes::begins_with(row, p) {
            assert(row.take(4) =~= p.take(4)) by {
                assert(row.take(p.len() as int).take(4) =~= row.take(4));
            }
        }
        if bytes::lex_le(fact.row, row) && p != fact.row && fact.row != row {
            bytes::lemma_lex_transitive(p, fact.row, row);
        }
    }
    lemma_filter_agrees(
        facts,
        |f: Fact| plan::in_range(f.row, fact.row, bytes::successor(p)),
        |f: Fact| within(f) && from(f),
    );
    lemma_filter_twice(facts, within, from);
    lemma_filter_from(all, i);
    lemma_after(all, i);
    assert(all.skip(i) =~= seq![fact] + all.skip(i + 1));
}

/// In sorted facts, those from the row at `i` on are the ones from `i` on.
proof fn lemma_filter_from(all: Seq<Fact>, i: int)
    requires
        plan::sorted(all),
        0 <= i < all.len(),
    ensures
        all.filter(|f: Fact| bytes::lex_le(all[i].row, f.row)) == all.skip(i),
    decreases all.len(),
{
    reveal(Seq::filter);
    let from = |f: Fact| bytes::lex_le(all[i].row, f.row);
    let t = all.drop_last();
    assert(plan::sorted(t)) by {
        assert forall|a: int, b: int|
            #![trigger t[a], t[b]]
            0 <= a < b < t.len() implies bytes::lex_lt(t[a].row, t[b].row) by {
            assert(t[a] == all[a] && t[b] == all[b]);
        }
    }
    if i < t.len() {
        lemma_filter_from(t, i);
        assert(t[i] == all[i]);
        assert(bytes::lex_lt(all[i].row, all[all.len() - 1].row));
        assert(t.skip(i).push(all.last()) =~= all.skip(i));
    } else {
        assert forall|j: int| 0 <= j < t.len() implies !from(#[trigger] t[j]) by {
            assert(t[j] == all[j]);
            bytes::lemma_lex_asymmetric(all[j].row, all[i].row);
        }
        lemma_filter_none(t, from);
        assert(seq![all.last()] =~= all.skip(i));
        assert(Seq::<Fact>::empty().push(all.last()) =~= all.skip(i));
    }
}

proof fn lemma_filter_none(s: Seq<Fact>, p: spec_fn(Fact) -> bool)
    requires
        forall|i: int| 0 <= i < s.len() ==> !p(#[trigger] s[i]),
    ensures
        s.filter(p) == Seq::<Fact>::empty(),
    decreases s.len(),
{
    reveal(Seq::filter);
    if s.len() > 0 {
        let t = s.drop_last();
        assert forall|i: int| 0 <= i < t.len() implies !p(#[trigger] t[i]) by {
            assert(t[i] == s[i]);
        }
        lemma_filter_none(t, p);
        assert(!p(s[s.len() - 1]));
    }
}

// ---- lemmas: steps ----------------------------------------------------------

/// Chaining is associative.
proof fn lemma_chain(a: Run, b: Run, c: Run)
    ensures
        a.chain(b).chain(c) == a.chain(b.chain(c)),
{
    assert(a.chain(b).chain(c) =~= a.chain(b.chain(c)));
}

/// What a step leaves to do: the same rows and the same error, one step fewer.
pub open spec fn a_step_later(before: Run, after: Run) -> bool {
    &&& after.rows == before.rows
    &&& after.error == before.error
    &&& after.steps + 1 == before.steps
}

/// Opening the level under way.
pub proof fn lemma_opened(
    at: Place,
    facts: Seq<Fact>,
    body: Seq<Generator>,
    nvars: nat,
    p: Seq<u8>,
)
    requires
        at.wf(facts, body, nvars),
        at.depth() < body.len(),
        at.open is None,
        prefix(at.env(body, nvars), body[at.depth() as int]) == Ok::<Seq<u8>, ApertureError>(p),
    ensures
        at.opened(matching(facts, p)).wf(facts, body, nvars),
        at.faithful(facts, body, nvars) ==> at.opened(matching(facts, p)).faithful(
            facts,
            body,
            nvars,
        ),
        a_step_later(
            at.pending(facts, body, nvars),
            at.opened(matching(facts, p)).pending(facts, body, nvars),
        ),
{
    assert(matching(facts, p).skip(0) =~= matching(facts, p));
    facts.lemma_filter_len(|f: Fact| bytes::begins_with(f.row, p));
}

/// Opening the level under way over some other range of the index.
pub proof fn lemma_opened_over(
    at: Place,
    facts: Seq<Fact>,
    body: Seq<Generator>,
    nvars: nat,
    lo: Seq<u8>,
    hi: Option<Seq<u8>>,
)
    requires
        at.wf(facts, body, nvars),
        at.depth() < body.len(),
        prefix(at.env(body, nvars), body[at.depth() as int]) is Ok,
    ensures
        at.opened(plan::between(facts, lo, hi)).wf(facts, body, nvars),
        forall|i: int|
            0 <= i < plan::between(facts, lo, hi).len() ==> bytes::begins_with(
                (#[trigger] plan::between(facts, lo, hi)[i]).row,
                lo.take(4),
            ),
{
    let kept = |f: Fact| plan::in_range(f.row, lo, hi);
    facts.lemma_filter_len(kept);
    assert forall|i: int| 0 <= i < plan::between(facts, lo, hi).len() implies bytes::begins_with(
        (#[trigger] plan::between(facts, lo, hi)[i]).row,
        lo.take(4),
    ) by {
        facts.lemma_filter_pred(kept, i);
    }
}

/// Passing over a candidate the level does not admit.
pub proof fn lemma_passed_over(at: Place, facts: Seq<Fact>, body: Seq<Generator>, nvars: nat)
    requires
        at.wf(facts, body, nvars),
        at.depth() < body.len(),
        at.open matches Some(left) && left.len() > 0 && admits(
            at.env(body, nvars),
            body[at.depth() as int],
            left[0],
        ) == Ok::<bool, ApertureError>(false),
    ensures
        at.passed_over().wf(facts, body, nvars),
        at.faithful(facts, body, nvars) ==> at.passed_over().faithful(facts, body, nvars),
        a_step_later(
            at.pending(facts, body, nvars),
            at.passed_over().pending(facts, body, nvars),
        ),
{
    if at.faithful(facts, body, nvars) {
        let left = at.open->0;
        let all = candidates(facts, body, nvars, at.stack, at.depth());
        assert(left.skip(1) =~= all.skip(all.len() - left.len() + 1));
    }
}

/// The first of some candidates left has the others after it.
proof fn lemma_tail_head(facts: Seq<Fact>, p: Seq<u8>, left: Seq<Fact>)
    requires
        plan::sorted(facts),
        is_tail(left, matching(facts, p)),
        left.len() > 0,
    ensures
        left.skip(1) == after(matching(facts, p), left[0]),
        matching(facts, p).contains(left[0]),
{
    let all = matching(facts, p);
    lemma_matching_sorted(facts, p);
    lemma_after(all, all.len() - left.len());
    assert(all[all.len() - left.len()] == left[0]);
    assert(left.skip(1) =~= all.skip(all.len() - left.len() + 1));
}

proof fn lemma_entered_faithful(
    at: Place,
    facts: Seq<Fact>,
    body: Seq<Generator>,
    nvars: nat,
)
    requires
        at.depth() < body.len(),
        at.rest.len() == at.stack.len(),
        at.open matches Some(left) && left.len() > 0,
        plan::sorted(facts),
        at.faithful(facts, body, nvars),
    ensures
        at.entered().faithful(facts, body, nvars),
{
    let k = at.depth();
    let next = at.entered();
    let left = at.open->0;
    lemma_tail_head(
        facts,
        prefix(at.env(body, nvars), body[k as int])->Ok_0,
        left,
    );
    assert forall|i: int| 0 <= i < next.depth() implies #[trigger] on_a_candidate(
        facts,
        body,
        nvars,
        next.stack,
        i as nat,
        next.rest[i],
    ) by {
        lemma_env_prefix(body, nvars, at.stack, next.stack, i as nat);
        if i < k {
            assert(on_a_candidate(facts, body, nvars, at.stack, i as nat, at.rest[i]));
        }
    }
}

/// Entering the level inside, on a candidate the level admits.
pub proof fn lemma_entered(at: Place, facts: Seq<Fact>, body: Seq<Generator>, nvars: nat)
    requires
        at.wf(facts, body, nvars),
        at.depth() < body.len(),
        at.open matches Some(left) && left.len() > 0 && admits(
            at.env(body, nvars),
            body[at.depth() as int],
            left[0],
        ) == Ok::<bool, ApertureError>(true),
        plan::sorted(facts),
        stray(body[at.depth() as int].binds@, nvars, 0) is None,
    ensures
        at.entered().wf(facts, body, nvars),
        at.faithful(facts, body, nvars) ==> at.entered().faithful(facts, body, nvars),
        at.entered().env(body, nvars) == bound(
            at.env(body, nvars),
            body[at.depth() as int].binds@,
            at.open->0[0],
        ),
        a_step_later(
            at.pending(facts, body, nvars),
            at.entered().pending(facts, body, nvars),
        ),
{
    let k = at.depth();
    let next = at.entered();
    let left = at.open->0;
    let env = at.env(body, nvars);
    lemma_env_len(body, nvars, at.stack, k);
    lemma_env_prefix(body, nvars, at.stack, next.stack, k);
    assert(next.env(body, nvars) == bound(env, body[k as int].binds@, left[0]));
    assert forall|i: int| 0 <= i < next.depth() implies #[trigger] on_a_row(
        body,
        nvars,
        next.stack,
        i as nat,
    ) && next.rest[i].len() <= facts.len() by {
        lemma_env_prefix(body, nvars, at.stack, next.stack, i as nat);
        if i < k {
            assert(on_a_row(body, nvars, at.stack, i as nat));
        }
    }
    if at.faithful(facts, body, nvars) {
        lemma_entered_faithful(at, facts, body, nvars);
    }
    let inner = run(facts, body, next.env(body, nvars), k + 1);
    let rest = run_rows(facts, body, env, k, left.skip(1));
    let outer = unwound(facts, body, nvars, at.stack, at.rest, k);
    lemma_unwound_prefix(facts, body, nvars, at.stack, at.rest, next.stack, next.rest, k);
    lemma_chain(inner, rest, outer);
}

/// A level with nothing left goes back to the level outside.
pub proof fn lemma_exhausted(at: Place, facts: Seq<Fact>, body: Seq<Generator>, nvars: nat)
    requires
        at.wf(facts, body, nvars),
        0 < at.depth() < body.len(),
        at.open matches Some(left) && left.len() == 0,
    ensures
        at.left().wf(facts, body, nvars),
        at.faithful(facts, body, nvars) ==> at.left().faithful(facts, body, nvars),
        a_step_later(at.pending(facts, body, nvars), at.left().pending(facts, body, nvars)),
{
    lemma_left(at, facts, body, nvars);
}

/// Past a whole row, the innermost level goes on.
pub proof fn lemma_yielded(at: Place, facts: Seq<Fact>, body: Seq<Generator>, nvars: nat)
    requires
        at.wf(facts, body, nvars),
        0 < at.depth() == body.len(),
    ensures
        at.left().wf(facts, body, nvars),
        at.faithful(facts, body, nvars) ==> at.left().faithful(facts, body, nvars),
        ({
            let (before, after) = (
                at.pending(facts, body, nvars),
                at.left().pending(facts, body, nvars),
            );
            &&& before.rows.len() > 0
            &&& before.rows[0] == at.env(body, nvars)
            &&& after.rows == before.rows.skip(1)
            &&& after.error == before.error
            &&& after.steps + 1 == before.steps
        }),
{
    lemma_left(at, facts, body, nvars);
    let env = at.env(body, nvars);
    let outer = unwound(facts, body, nvars, at.stack, at.rest, at.depth());
    assert((seq![env] + outer.rows).skip(1) =~= outer.rows);
}

/// Back to the level outside.
pub proof fn lemma_left(at: Place, facts: Seq<Fact>, body: Seq<Generator>, nvars: nat)
    requires
        at.wf(facts, body, nvars),
        0 < at.depth(),
    ensures
        at.left().wf(facts, body, nvars),
        at.faithful(facts, body, nvars) ==> at.left().faithful(facts, body, nvars),
        at.left().pending(facts, body, nvars) == unwound(
            facts,
            body,
            nvars,
            at.stack,
            at.rest,
            at.depth(),
        ),
{
    let next = at.left();
    let k = (at.depth() - 1) as nat;
    assert(on_a_row(body, nvars, at.stack, k));
    lemma_env_prefix(body, nvars, at.stack, next.stack, k);
    lemma_unwound_prefix(facts, body, nvars, at.stack, at.rest, next.stack, next.rest, k);
    assert forall|i: int| 0 <= i < next.depth() implies #[trigger] on_a_row(
        body,
        nvars,
        next.stack,
        i as nat,
    ) && next.rest[i].len() <= facts.len() by {
        lemma_env_prefix(body, nvars, at.stack, next.stack, i as nat);
        assert(on_a_row(body, nvars, at.stack, i as nat));
    }
    if at.faithful(facts, body, nvars) {
        assert(on_a_candidate(facts, body, nvars, at.stack, k, at.rest[k as int]));
        lemma_after_is_tail(
            candidates(facts, body, nvars, at.stack, k),
            at.stack[k as int],
        );
        assert forall|i: int| 0 <= i < next.depth() implies #[trigger] on_a_candidate(
            facts,
            body,
            nvars,
            next.stack,
            i as nat,
            next.rest[i],
        ) by {
            lemma_env_prefix(body, nvars, at.stack, next.stack, i as nat);
            assert(on_a_candidate(facts, body, nvars, at.stack, i as nat, at.rest[i]));
        }
    }
}

/// Looking for the next candidate a level admits: it and what is left after it, or
/// nothing; or the error that stops the search.
pub open spec fn sought(env: Seq<Option<Fact>>, level: Generator, left: Seq<Fact>) -> Result<
    (Option<Fact>, Seq<Fact>),
    ApertureError,
>
    decreases left.len(),
{
    if left.len() == 0 {
        Ok((None, left))
    } else {
        match admits(env, level, left[0]) {
            Err(e) => Err(e),
            Ok(true) => Ok((Some(left[0]), left.skip(1))),
            Ok(false) => sought(env, level, left.skip(1)),
        }
    }
}

/// Searching passes over candidates and leaves the run what it was.
pub proof fn lemma_sought(at: Place, facts: Seq<Fact>, body: Seq<Generator>, nvars: nat)
    requires
        at.wf(facts, body, nvars),
        at.depth() < body.len(),
        at.open is Some,
    ensures
        match sought(at.env(body, nvars), body[at.depth() as int], at.open->0) {
            Err(e) => {
                &&& at.pending(facts, body, nvars).rows.len() == 0
                &&& at.pending(facts, body, nvars).error == Some(e)
            },
            Ok((found, rest)) => {
                let reached = match found {
                    Some(fact) => seq![fact] + rest,
                    None => rest,
                };
                let next = Place { open: Some(reached), ..at };
                &&& next.wf(facts, body, nvars)
                &&& at.faithful(facts, body, nvars) ==> next.faithful(facts, body, nvars)
                &&& next.pending(facts, body, nvars).rows == at.pending(facts, body, nvars).rows
                &&& next.pending(facts, body, nvars).error == at.pending(facts, body, nvars).error
                &&& next.pending(facts, body, nvars).steps <= at.pending(facts, body, nvars).steps
                &&& found matches Some(fact) ==> admits(
                    at.env(body, nvars),
                    body[at.depth() as int],
                    fact,
                ) == Ok::<bool, ApertureError>(true)
                &&& found is None ==> rest.len() == 0
            },
        },
    decreases at.open->0.len(),
{
    let left = at.open->0;
    let env = at.env(body, nvars);
    let level = body[at.depth() as int];
    if left.len() == 0 {
        assert(Place { open: Some(left), ..at } =~= at);
    } else {
        match admits(env, level, left[0]) {
            Err(e) => {},
            Ok(true) => {
                assert(seq![left[0]] + left.skip(1) =~= left);
                assert(Place { open: Some(left), ..at } =~= at);
            },
            Ok(false) => {
                lemma_passed_over(at, facts, body, nvars);
                let next = at.passed_over();
                lemma_sought(next, facts, body, nvars);
                if let Ok((found, rest)) = sought(env, level, left.skip(1)) {
                    let reached = match found {
                        Some(fact) => seq![fact] + rest,
                        None => rest,
                    };
                    assert(Place { open: Some(reached), ..next } =~= Place {
                        open: Some(reached),
                        ..at
                    });
                }
            },
        }
    }
}

// ---- stopping and taking up again -------------------------------------------

/// Whether a run stands at `place` having been stopped on a whole row, with `cursor` the
/// row each level was on.
pub open spec fn stopped(
    place: Place,
    facts: Seq<Fact>,
    body: Seq<Generator>,
    nvars: nat,
    cursor: Seq<Fact>,
) -> bool {
    exists|full: Place| #[trigger]
        full.wf(facts, body, nvars) && full.faithful(facts, body, nvars) && 0 < full.depth()
            == body.len() && full.stack == cursor && place == full.left()
}

pub proof fn lemma_stopped(full: Place, facts: Seq<Fact>, body: Seq<Generator>, nvars: nat)
    requires
        full.wf(facts, body, nvars),
        full.faithful(facts, body, nvars),
        0 < full.depth() == body.len(),
    ensures
        stopped(full.left(), facts, body, nvars, full.stack),
{
}

/// The row a level comes back to, and what it has left: the first row from the saved one
/// on that the level admits, which, where ids are `checked`, has to be the saved fact.
pub open spec fn come_back(
    facts: Seq<Fact>,
    env: Seq<Option<Fact>>,
    level: Generator,
    saved: Fact,
    checked: bool,
) -> Result<(Fact, Seq<Fact>), ApertureError> {
    match prefix(env, level) {
        Err(e) => Err(e),
        Ok(p) => if saved.row.len() < 4 {
            Err(
                ApertureError::Store(
                    StoreError::ShortScanBound { len: saved.row.len() as usize, expected: 4 },
                ),
            )
        } else {
            match sought(env, level, plan::between(facts, saved.row, bytes::successor(p))) {
                Err(e) => Err(e),
                Ok((Some(fact), left)) if !checked || fact.id == saved.id => Ok((fact, left)),
                Ok(_) => Err(ApertureError::BadResumeKey),
            }
        },
    }
}

/// The rows a cursor's first `k` levels come back to, and what each has left.
pub open spec fn resumed(
    facts: Seq<Fact>,
    body: Seq<Generator>,
    nvars: nat,
    cursor: Seq<Fact>,
    k: nat,
    checked: bool,
) -> Result<(Seq<Fact>, Seq<Seq<Fact>>), ApertureError>
    decreases k,
{
    if k == 0 {
        Ok((Seq::empty(), Seq::empty()))
    } else {
        match resumed(facts, body, nvars, cursor, (k - 1) as nat, checked) {
            Err(e) => Err(e),
            Ok((stack, rest)) => match come_back(
                facts,
                env_of(body, nvars, stack, (k - 1) as nat),
                body[k - 1],
                cursor[k - 1],
                checked,
            ) {
                Err(e) => Err(e),
                Ok((fact, left)) => Ok((stack.push(fact), rest.push(left))),
            },
        }
    }
}

/// Where a cursor leads: the innermost level it names goes on after the row it was on.
pub open spec fn resumption(stack: Seq<Fact>, rest: Seq<Seq<Fact>>) -> Place {
    if stack.len() == 0 {
        Place::start()
    } else {
        Place { stack, rest, open: None, last: None }.left()
    }
}

/// A cursor leads back to where the run was stopped, so a run stopped after any row and
/// taken up again goes on with the very rows it had left, whether or not ids are
/// checked.
pub proof fn law_a_cursor_leads_back(
    place: Place,
    facts: Seq<Fact>,
    body: Seq<Generator>,
    nvars: nat,
    cursor: Seq<Fact>,
    checked: bool,
)
    requires
        plan::sorted(facts),
        stopped(place, facts, body, nvars, cursor),
    ensures
        resumed(facts, body, nvars, cursor, cursor.len(), checked) matches Ok((stack, rest))
            && resumption(stack, rest) == place,
{
    let full = choose|full: Place| #[trigger]
        full.wf(facts, body, nvars) && full.faithful(facts, body, nvars) && 0 < full.depth()
            == body.len() && full.stack == cursor && place == full.left();
    lemma_resumed(full, facts, body, nvars, cursor.len(), checked);
    assert(full.stack.take(cursor.len() as int) =~= full.stack);
    assert(full.rest.take(cursor.len() as int) =~= full.rest);
    let (stack, rest) = resumed(facts, body, nvars, cursor, cursor.len(), checked)->Ok_0;
    assert(resumption(stack, rest) =~= full.left());
}

/// A level comes back to the candidate it was on.
proof fn lemma_comes_back(
    facts: Seq<Fact>,
    env: Seq<Option<Fact>>,
    level: Generator,
    saved: Fact,
    checked: bool,
)
    requires
        plan::sorted(facts),
        prefix(env, level) is Ok,
        admits(env, level, saved) == Ok::<bool, ApertureError>(true),
        matching(facts, prefix(env, level)->Ok_0).contains(saved),
    ensures
        come_back(facts, env, level, saved, checked) == Ok::<(Fact, Seq<Fact>), ApertureError>(
            (saved, after(matching(facts, prefix(env, level)->Ok_0), saved)),
        ),
{
    let p = prefix(env, level)->Ok_0;
    lemma_prefix_len(env, level);
    lemma_scan_from(facts, p, saved);
    lemma_matching_sorted(facts, p);
    let i = choose|i: int| 0 <= i < matching(facts, p).len() && matching(facts, p)[i] == saved;
    assert(bytes::begins_with(matching(facts, p)[i].row, p));
    let left = seq![saved] + after(matching(facts, p), saved);
    assert(left[0] == saved);
    assert(left.skip(1) =~= after(matching(facts, p), saved));
}

proof fn lemma_resumed(
    full: Place,
    facts: Seq<Fact>,
    body: Seq<Generator>,
    nvars: nat,
    k: nat,
    checked: bool,
)
    requires
        plan::sorted(facts),
        full.wf(facts, body, nvars),
        full.faithful(facts, body, nvars),
        k <= full.depth(),
    ensures
        resumed(facts, body, nvars, full.stack, k, checked) == Ok::<
            (Seq<Fact>, Seq<Seq<Fact>>),
            ApertureError,
        >((full.stack.take(k as int), full.rest.take(k as int))),
    decreases k,
{
    if k == 0 {
        assert(full.stack.take(0) =~= Seq::<Fact>::empty());
        assert(full.rest.take(0) =~= Seq::<Seq<Fact>>::empty());
    } else {
        let j = (k - 1) as nat;
        lemma_resumed(full, facts, body, nvars, j, checked);
        let stack = full.stack.take(j as int);
        lemma_env_prefix(body, nvars, full.stack, stack, j);
        let env = env_of(body, nvars, stack, j);
        let level = body[j as int];
        let saved = full.stack[j as int];
        assert(on_a_row(body, nvars, full.stack, j));
        assert(on_a_candidate(facts, body, nvars, full.stack, j, full.rest[j as int]));
        lemma_comes_back(facts, env, level, saved, checked);
        assert(full.stack.take(k as int) =~= stack.push(saved));
        assert(full.rest.take(k as int) =~= full.rest.take(j as int).push(full.rest[j as int]));
    }
}

/// Past a level that cannot be taken up again, none is.
pub proof fn lemma_resumed_fails(
    facts: Seq<Fact>,
    body: Seq<Generator>,
    nvars: nat,
    cursor: Seq<Fact>,
    k: nat,
    n: nat,
    checked: bool,
)
    requires
        k <= n,
    ensures
        resumed(facts, body, nvars, cursor, k, checked) is Err ==> resumed(
            facts,
            body,
            nvars,
            cursor,
            n,
            checked,
        ) == resumed(facts, body, nvars, cursor, k, checked),
    decreases n,
{
    if k < n {
        lemma_resumed_fails(facts, body, nvars, cursor, k, (n - 1) as nat, checked);
    }
}

// ---- reading registers ------------------------------------------------------

pub open spec fn part_reads(part: SeekKeyPart, address: Address) -> bool {
    match part {
        SeekKeyPart::Bytes(_) => false,
        SeekKeyPart::RegisterField { address: from, .. } => from == address,
        SeekKeyPart::RegisterFactId(from) => from == address,
    }
}

pub open spec fn op_reads(op: ResidualOp, address: Address) -> bool {
    match op {
        ResidualOp::EqRegisterField { address: from, .. } => from == address,
        ResidualOp::EqRegisterFactId(from) => from == address,
        _ => false,
    }
}

/// Whether opening a level reads a register.
pub open spec fn seek_reads(level: Generator, address: Address) -> bool {
    level.access.seek_key matches SeekKey::Composite(parts) && exists|i: int|
        0 <= i < parts@.len() && part_reads(#[trigger] parts@[i], address)
}

/// Whether filtering a level's rows reads a register.
pub open spec fn filters_read(level: Generator, address: Address) -> bool {
    exists|i: int|
        0 <= i < level.residuals@.len() && op_reads(
            (#[trigger] level.residuals@[i]).op,
            address,
        )
}

/// Whether a level reads a register.
pub open spec fn reads(level: Generator, address: Address) -> bool {
    seek_reads(level, address) || filters_read(level, address)
}

/// Registers that agree on what a level reads.
pub open spec fn same_to(a: Seq<Option<Fact>>, b: Seq<Option<Fact>>, level: Generator) -> bool {
    forall|address: Address| #[trigger]
        reads(level, address) ==> held(a, address) == held(b, address)
}

proof fn lemma_parts_agree(
    a: Seq<Option<Fact>>,
    b: Seq<Option<Fact>>,
    level: Generator,
    parts: Seq<SeekKeyPart>,
    k: nat,
)
    requires
        same_to(a, b, level),
        level.access.seek_key matches SeekKey::Composite(all) && all@ == parts,
        k <= parts.len(),
    ensures
        parts_bytes(a, parts, k) == parts_bytes(b, parts, k),
    decreases k,
{
    if k > 0 {
        lemma_parts_agree(a, b, level, parts, (k - 1) as nat);
        match parts[k - 1] {
            SeekKeyPart::Bytes(_) => {},
            SeekKeyPart::RegisterField { address, .. } => {
                assert(part_reads(parts[k - 1], address));
                assert(reads(level, address));
            },
            SeekKeyPart::RegisterFactId(address) => {
                assert(part_reads(parts[k - 1], address));
                assert(reads(level, address));
            },
        }
    }
}

pub proof fn lemma_prefix_agrees(
    a: Seq<Option<Fact>>,
    b: Seq<Option<Fact>>,
    level: Generator,
)
    requires
        same_to(a, b, level),
    ensures
        prefix(a, level) == prefix(b, level),
{
    if let SeekKey::Composite(parts) = level.access.seek_key {
        lemma_parts_agree(a, b, level, parts@, parts@.len());
    }
}

proof fn lemma_passes_agree(
    a: Seq<Option<Fact>>,
    b: Seq<Option<Fact>>,
    level: Generator,
    fact: Fact,
    k: nat,
)
    requires
        same_to(a, b, level),
        k <= level.residuals@.len(),
    ensures
        passes(a, level.residuals@, fact, k) == passes(b, level.residuals@, fact, k),
    decreases k,
{
    if k > 0 {
        lemma_passes_agree(a, b, level, fact, (k - 1) as nat);
        let filter = level.residuals@[k - 1];
        match filter.op {
            ResidualOp::EqRegisterField { address, .. } => {
                assert(op_reads(level.residuals@[k - 1].op, address));
                assert(reads(level, address));
            },
            ResidualOp::EqRegisterFactId(address) => {
                assert(op_reads(level.residuals@[k - 1].op, address));
                assert(reads(level, address));
            },
            _ => {},
        }
    }
}

pub proof fn lemma_admits_agrees(
    a: Seq<Option<Fact>>,
    b: Seq<Option<Fact>>,
    level: Generator,
    fact: Fact,
)
    requires
        same_to(a, b, level),
    ensures
        admits(a, level, fact) == admits(b, level, fact),
{
    lemma_passes_agree(a, b, level, fact, level.residuals@.len());
}

pub proof fn lemma_sought_agrees(
    a: Seq<Option<Fact>>,
    b: Seq<Option<Fact>>,
    level: Generator,
    left: Seq<Fact>,
)
    requires
        same_to(a, b, level),
    ensures
        sought(a, level, left) == sought(b, level, left),
    decreases left.len(),
{
    if left.len() > 0 {
        lemma_admits_agrees(a, b, level, left[0]);
        lemma_sought_agrees(a, b, level, left.skip(1));
    }
}

/// A prefix names its predicate.
pub proof fn lemma_prefix_len(env: Seq<Option<Fact>>, level: Generator)
    ensures
        prefix(env, level) matches Ok(p) ==> p.len() >= 4,
{
    tuple::lemma_big_endian_len(level.access.predicate_id.0 as nat, 4);
}

/// Past a part that cannot be read, no part is.
pub proof fn lemma_parts_fail(env: Seq<Option<Fact>>, parts: Seq<SeekKeyPart>, k: nat, n: nat)
    requires
        k <= n,
        parts_bytes(env, parts, k) is Err,
    ensures
        parts_bytes(env, parts, n) == parts_bytes(env, parts, k),
    decreases n,
{
    if k < n {
        lemma_parts_fail(env, parts, k, (n - 1) as nat);
    }
}

/// Past a filter that decides, no other does.
pub proof fn lemma_passes_decided(
    env: Seq<Option<Fact>>,
    filters: Seq<Residual>,
    fact: Fact,
    k: nat,
    n: nat,
)
    requires
        k <= n,
        passes(env, filters, fact, k) != Ok::<bool, ApertureError>(true),
    ensures
        passes(env, filters, fact, n) == passes(env, filters, fact, k),
    decreases n,
{
    if k < n {
        lemma_passes_decided(env, filters, fact, k, (n - 1) as nat);
    }
}

/// A seek that could be built read only registers that hold something.
proof fn lemma_parts_held(env: Seq<Option<Fact>>, parts: Seq<SeekKeyPart>, k: nat, i: int)
    requires
        0 <= i < k <= parts.len(),
        parts_bytes(env, parts, k) is Ok,
    ensures
        part_bytes(env, parts[i]) is Ok,
    decreases k,
{
    if i < k - 1 {
        lemma_parts_held(env, parts, (k - 1) as nat, i);
    }
}

proof fn lemma_filters_held(
    env: Seq<Option<Fact>>,
    filters: Seq<Residual>,
    fact: Fact,
    k: nat,
    i: int,
)
    requires
        0 <= i < k <= filters.len(),
        passes(env, filters, fact, k) == Ok::<bool, ApertureError>(true),
    ensures
        passes_one(env, filters[i], fact) is Ok,
    decreases k,
{
    if i < k - 1 {
        lemma_filters_held(env, filters, fact, (k - 1) as nat, i);
    }
}

/// A level that was opened and admitted a row read only registers that hold something.
proof fn lemma_reads_held(env: Seq<Option<Fact>>, level: Generator, fact: Fact, address: Address)
    requires
        prefix(env, level) is Ok,
        admits(env, level, fact) == Ok::<bool, ApertureError>(true),
        reads(level, address),
    ensures
        held(env, address) is Ok,
{
    if seek_reads(level, address) {
        let parts = level.access.seek_key->Composite_0@;
        let i = choose|i: int| 0 <= i < parts.len() && part_reads(#[trigger] parts[i], address);
        lemma_parts_held(env, parts, parts.len(), i);
    } else {
        let filters = level.residuals@;
        let i = choose|i: int|
            0 <= i < filters.len() && op_reads((#[trigger] filters[i]).op, address);
        lemma_filters_held(env, filters, fact, filters.len(), i);
    }
}

/// Whether one of the first `k` levels binds a register.
pub open spec fn bound_by(body: Seq<Generator>, address: Address, k: nat) -> bool {
    exists|j: int| 0 <= j < k && j < body.len() && (#[trigger] body[j]).binds@.contains(address)
}

/// No two levels bind the same register.
pub open spec fn binds_once(body: Seq<Generator>) -> bool {
    forall|i: int, j: int, address: Address|
        #![trigger body[i].binds@.contains(address), body[j].binds@.contains(address)]
        0 <= i < j < body.len() && body[i].binds@.contains(address)
            ==> !body[j].binds@.contains(address)
}

/// The rows of the first `k` levels fill exactly the registers those levels bind.
proof fn lemma_env_binds(
    body: Seq<Generator>,
    nvars: nat,
    stack: Seq<Fact>,
    k: nat,
    address: Address,
)
    requires
        k <= body.len(),
        address.0 < nvars,
    ensures
        env_of(body, nvars, stack, k)[address.0 as int] is Some <==> bound_by(body, address, k),
    decreases k,
{
    lemma_env_len(body, nvars, stack, k);
    if k > 0 {
        lemma_env_len(body, nvars, stack, (k - 1) as nat);
        lemma_env_binds(body, nvars, stack, (k - 1) as nat, address);
        assert(Address(address.0 as int as usize) == address);
        if body[k - 1].binds@.contains(address) {
            assert(bound_by(body, address, k));
        }
        if bound_by(body, address, (k - 1) as nat) {
            let j = choose|j: int|
                0 <= j < k - 1 && j < body.len() && (#[trigger] body[j]).binds@.contains(address);
            assert(body[j].binds@.contains(address));
        }
    }
}

/// The machine's registers against the rows it is on. What the outer levels bound is in
/// place; what an inner level left behind is in a register only levels still to come
/// read. `reached` is how many levels have ever admitted a row.
pub open spec fn agrees(
    body: Seq<Generator>,
    nvars: nat,
    stack: Seq<Fact>,
    regs: Seq<Option<Fact>>,
    reached: nat,
) -> bool {
    let env = env_of(body, nvars, stack, stack.len());
    &&& regs.len() == nvars
    &&& stack.len() <= reached <= body.len()
    &&& forall|r: int|
        0 <= r < nvars ==> (env[r] is Some ==> #[trigger] regs[r] == env[r])
    &&& forall|r: int|
        0 <= r < nvars && (#[trigger] regs[r]) is Some && env[r] is None ==> bound_between(
            body,
            Address(r as usize),
            stack.len(),
            reached,
        )
    &&& forall|f: int, address: Address|
        0 <= f < reached && #[trigger] reads(body[f], address) ==> bound_by(
            body,
            address,
            f as nat,
        )
}

/// Whether one of the levels from `from` up to `to` binds a register.
pub open spec fn bound_between(
    body: Seq<Generator>,
    address: Address,
    from: nat,
    to: nat,
) -> bool {
    exists|g: int|
        from <= g < to && g < body.len() && (#[trigger] body[g]).binds@.contains(address)
}

/// The level under way reads the registers as its outer rows bind them.
pub proof fn lemma_agrees_reads(
    body: Seq<Generator>,
    nvars: nat,
    stack: Seq<Fact>,
    regs: Seq<Option<Fact>>,
    reached: nat,
)
    requires
        agrees(body, nvars, stack, regs, reached),
        stack.len() < body.len(),
        nvars <= usize::MAX,
    ensures
        same_to(
            regs,
            env_of(body, nvars, stack, stack.len()),
            body[stack.len() as int],
        ),
{
    let k = stack.len();
    let env = env_of(body, nvars, stack, k);
    lemma_env_len(body, nvars, stack, k);
    assert forall|address: Address| #[trigger]
        reads(body[k as int], address) implies held(regs, address) == held(env, address) by {
        if address.0 < nvars {
            let r = address.0 as int;
            lemma_env_binds(body, nvars, stack, k, address);
            assert(Address(r as usize) == address);
            if env[r] is Some {
                assert(regs[r] == env[r]);
            } else if regs[r] is Some {
                assert(bound_between(body, address, k, reached));
                assert(k < reached);
                assert(bound_by(body, address, k));
            }
        }
    }
}

/// Entering the level inside.
pub proof fn lemma_agrees_entered(
    body: Seq<Generator>,
    nvars: nat,
    stack: Seq<Fact>,
    regs: Seq<Option<Fact>>,
    reached: nat,
    fact: Fact,
)
    requires
        agrees(body, nvars, stack, regs, reached),
        stack.len() < body.len(),
        nvars <= usize::MAX,
        prefix(env_of(body, nvars, stack, stack.len()), body[stack.len() as int]) is Ok,
        admits(
            env_of(body, nvars, stack, stack.len()),
            body[stack.len() as int],
            fact,
        ) == Ok::<bool, ApertureError>(true),
    ensures
        agrees(
            body,
            nvars,
            stack.push(fact),
            bound(regs, body[stack.len() as int].binds@, fact),
            if reached > stack.len() {
                reached
            } else {
                stack.len() + 1
            },
        ),
{
    let k = stack.len();
    let env = env_of(body, nvars, stack, k);
    let level = body[k as int];
    let next = stack.push(fact);
    let after = bound(regs, level.binds@, fact);
    let later = if reached > k {
        reached
    } else {
        k + 1
    };
    lemma_env_len(body, nvars, stack, k);
    lemma_env_prefix(body, nvars, stack, next, k);
    let inner = env_of(body, nvars, next, next.len());
    assert(inner == bound(env, level.binds@, fact));
    assert forall|r: int| 0 <= r < nvars && (#[trigger] after[r]) is Some && inner[r] is None implies bound_between(
        body,
        Address(r as usize),
        k + 1,
        later,
    ) by {
        assert(regs[r] is Some && env[r] is None);
        let g = choose|g: int|
            k <= g < reached && g < body.len() && (#[trigger] body[g]).binds@.contains(
                Address(r as usize),
            );
        assert(body[g].binds@.contains(Address(r as usize)));
        assert(g != k);
    }
    assert forall|f: int, address: Address|
        0 <= f < later && #[trigger] reads(body[f], address) implies bound_by(
        body,
        address,
        f as nat,
    ) by {
        if f >= reached {
            assert(f == k);
            lemma_reads_held(env, level, fact, address);
            lemma_env_binds(body, nvars, stack, k, address);
        }
    }
}

/// Back to the level outside.
pub proof fn lemma_agrees_left(
    body: Seq<Generator>,
    nvars: nat,
    stack: Seq<Fact>,
    regs: Seq<Option<Fact>>,
    reached: nat,
)
    requires
        agrees(body, nvars, stack, regs, reached),
        0 < stack.len(),
        binds_once(body),
        nvars <= usize::MAX,
    ensures
        agrees(body, nvars, stack.drop_last(), regs, reached),
{
    let k = (stack.len() - 1) as nat;
    let next = stack.drop_last();
    let inner = env_of(body, nvars, stack, stack.len());
    let env = env_of(body, nvars, next, k);
    lemma_env_prefix(body, nvars, stack, next, k);
    lemma_env_len(body, nvars, next, k);
    let level = body[k as int];
    assert(inner == bound(env, level.binds@, stack[k as int]));
    assert forall|r: int| 0 <= r < nvars && env[r] is Some implies #[trigger] regs[r]
        == env[r] by {
        let address = Address(r as usize);
        lemma_env_binds(body, nvars, next, k, address);
        let j = choose|j: int|
            0 <= j < k && j < body.len() && (#[trigger] body[j]).binds@.contains(address);
        assert(body[j].binds@.contains(address));
        assert(!body[k as int].binds@.contains(address));
        assert(inner[r] == env[r]);
    }
    assert forall|r: int| 0 <= r < nvars && (#[trigger] regs[r]) is Some && env[r] is None implies bound_between(
        body,
        Address(r as usize),
        k,
        reached,
    ) by {
        if inner[r] is Some {
            assert(level.binds@.contains(Address(r as usize)));
            assert(body[k as int].binds@.contains(Address(r as usize)));
        } else {
            let g = choose|g: int|
                stack.len() <= g < reached && g < body.len() && (
                #[trigger] body[g]).binds@.contains(Address(r as usize));
            assert(body[g].binds@.contains(Address(r as usize)));
        }
    }
}

// ---- reading only what is bound ---------------------------------------------

/// Level `k` binds register `k` and nothing else, and reads only the registers of the
/// levels outside it.
pub open spec fn reads_outer_rows(body: Seq<Generator>, nvars: nat) -> bool {
    &&& body.len() <= nvars
    &&& nvars <= usize::MAX
    &&& forall|i: int|
        0 <= i < body.len() ==> (#[trigger] body[i]).binds@ == seq![Address(i as usize)] && forall|
            address: Address,
        | #[trigger]
            reads(body[i], address) ==> address.0 < i
}

/// The registers of the levels outside `k` hold rows.
pub open spec fn filled_to(env: Seq<Option<Fact>>, nvars: nat, k: nat) -> bool {
    &&& env.len() == nvars
    &&& k <= nvars
    &&& forall|r: int| 0 <= r < k ==> (#[trigger] env[r]) is Some
}

/// Whether an error is a read of a register that holds nothing, or is none.
pub open spec fn reads_nothing(error: ApertureError) -> bool {
    error is UseBeforeBind || error is AddressOutOfBounds
}

proof fn lemma_parts_bound(
    env: Seq<Option<Fact>>,
    level: Generator,
    parts: Seq<SeekKeyPart>,
    nvars: nat,
    n: nat,
    k: nat,
)
    requires
        filled_to(env, nvars, n),
        forall|address: Address| #[trigger] reads(level, address) ==> address.0 < n,
        level.access.seek_key matches SeekKey::Composite(all) && all@ == parts,
        k <= parts.len(),
    ensures
        parts_bytes(env, parts, k) matches Err(e) ==> !reads_nothing(e),
    decreases k,
{
    if k > 0 {
        lemma_parts_bound(env, level, parts, nvars, n, (k - 1) as nat);
        match parts[k - 1] {
            SeekKeyPart::Bytes(_) => {},
            SeekKeyPart::RegisterField { address, path } => {
                assert(part_reads(parts[k - 1], address));
                assert(reads(level, address));
                let fact = env[address.0 as int]->0;
                tuple::lemma_path_errors(fact.key(), path@);
            },
            SeekKeyPart::RegisterFactId(address) => {
                assert(part_reads(parts[k - 1], address));
                assert(reads(level, address));
            },
        }
    }
}

proof fn lemma_passes_bound(
    env: Seq<Option<Fact>>,
    level: Generator,
    fact: Fact,
    nvars: nat,
    n: nat,
    k: nat,
)
    requires
        filled_to(env, nvars, n),
        forall|address: Address| #[trigger] reads(level, address) ==> address.0 < n,
        k <= level.residuals@.len(),
    ensures
        passes(env, level.residuals@, fact, k) matches Err(e) ==> !reads_nothing(e),
    decreases k,
{
    if k > 0 {
        lemma_passes_bound(env, level, fact, nvars, n, (k - 1) as nat);
        let filter = level.residuals@[k - 1];
        tuple::lemma_path_errors(fact.key(), filter.path@);
        match filter.op {
            ResidualOp::EqRegisterField { address, path } => {
                assert(op_reads(level.residuals@[k - 1].op, address));
                assert(reads(level, address));
                tuple::lemma_path_errors(env[address.0 as int]->0.key(), path@);
            },
            ResidualOp::EqRegisterFactId(address) => {
                assert(op_reads(level.residuals@[k - 1].op, address));
                assert(reads(level, address));
            },
            _ => {},
        }
    }
}

/// Binding a level's row fills its register.
proof fn lemma_filled(env: Seq<Option<Fact>>, nvars: nat, k: nat, fact: Fact)
    requires
        filled_to(env, nvars, k),
        k < nvars <= usize::MAX,
    ensures
        filled_to(bound(env, seq![Address(k as usize)], fact), nvars, k + 1),
        stray(seq![Address(k as usize)], nvars, 0) is None,
{
    let binds = seq![Address(k as usize)];
    let after = bound(env, binds, fact);
    reveal_with_fuel(stray, 2);
    assert forall|r: int| 0 <= r < k + 1 implies (#[trigger] after[r]) is Some by {
        if r == k {
            assert(binds[0] == Address(r as usize));
            assert(binds.contains(Address(r as usize)));
        }
    }
}

proof fn lemma_run_reads(
    facts: Seq<Fact>,
    body: Seq<Generator>,
    env: Seq<Option<Fact>>,
    nvars: nat,
    k: nat,
)
    requires
        reads_outer_rows(body, nvars),
        filled_to(env, nvars, k),
    ensures
        run(facts, body, env, k).error matches Some(e) ==> !reads_nothing(e),
    decreases body.len() - k, 1nat, 0nat,
{
    if k < body.len() {
        let level = body[k as int];
        if let SeekKey::Composite(parts) = level.access.seek_key {
            lemma_parts_bound(env, level, parts@, nvars, k, parts@.len());
        }
        if let Ok(p) = prefix(env, level) {
            lemma_rows_read(facts, body, env, nvars, k, matching(facts, p));
        }
    }
}

proof fn lemma_rows_read(
    facts: Seq<Fact>,
    body: Seq<Generator>,
    env: Seq<Option<Fact>>,
    nvars: nat,
    k: nat,
    left: Seq<Fact>,
)
    requires
        reads_outer_rows(body, nvars),
        filled_to(env, nvars, k),
    ensures
        run_rows(facts, body, env, k, left).error matches Some(e) ==> !reads_nothing(e),
    decreases body.len() - k, 0nat, left.len(),
{
    if k < body.len() && left.len() > 0 {
        let level = body[k as int];
        lemma_passes_bound(env, level, left[0], nvars, k, level.residuals@.len());
        lemma_rows_read(facts, body, env, nvars, k, left.skip(1));
        lemma_filled(env, nvars, k, left[0]);
        lemma_run_reads(facts, body, bound(env, level.binds@, left[0]), nvars, k + 1);
    }
}

/// A plan whose levels read only the rows of the levels outside them never reads a
/// register that holds nothing: its run fails, if it does, only on a row it cannot
/// decode.
pub proof fn law_what_is_read_is_bound(facts: Seq<Fact>, body: Seq<Generator>, nvars: nat)
    requires
        reads_outer_rows(body, nvars),
    ensures
        run(facts, body, unbound(nvars), 0).error matches Some(e) ==> !reads_nothing(e),
{
    lemma_run_reads(facts, body, unbound(nvars), nvars, 0);
}

} // verus!
