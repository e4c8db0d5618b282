//! The compiled query as the front end builds it: a sequence of steps, most of them
//! loop levels, and a head.
use vstd::prelude::*;

use crate::boxed;
use crate::boxed::{seal, seal_copy};
use crate::iter::Address;
use crate::plan::{
    Access, FieldPath, Generator, Plan, Project, Projection, Residual, ResidualOp, SeekKey,
    SeekKeyPart,
};
use crate::schema::PredicateId;

verus! {

/// Where a level's rows come from.
#[derive(Debug)]
pub enum Source {
    /// A scan, narrowed to a prefix and filtered.
    Seek { access: Access, residuals: Box<[Residual]> },
    /// The one fact a reference names: the one `path` of register `reference` holds.
    Fetch {
        reference: Address,
        path: FieldPath,
        predicate: PredicateId,
        residuals: Box<[Residual]>,
    },
}

/// One loop level: the alternatives its rows come from, and the registers a row fills.
/// No alternative at all is the empty relation.
#[derive(Debug)]
pub struct Level {
    pub sources: Box<[Source]>,
    pub binds: Box<[Address]>,
}

/// A step that binds nothing and lets a row through or not.
#[derive(Debug)]
pub enum Test {
    /// No source has a row.
    Absent(Box<[Source]>),
}

/// A step that computes a value without iterating.
#[derive(Debug)]
pub struct Derived {
    pub bind: Address,
}

/// One step of a [`Program`].
#[derive(Debug)]
pub enum Step {
    Level(Level),
    Derive(Derived),
    Test(Test),
}

/// The compiled query.
#[derive(Debug)]
pub struct Program {
    pub nvars: usize,
    pub body: Box<[Step]>,
    pub head: Project,
}

/// A copy of some residuals, and one more.
fn with_one_more(residuals: &[Residual], residual: &Residual) -> (out: Box<[Residual]>)
    ensures
        out == boxed::boxed(residuals@.push(*residual)),
        out@ == residuals@.push(*residual),
{
    let mut out: Vec<Residual> = Vec::new();
    let mut i: usize = 0;
    while i < residuals.len()
        invariant
            i <= residuals@.len(),
            out@ == residuals@.take(i as int),
        decreases residuals@.len() - i,
    {
        out.push(residuals[i].clone());
        i += 1;
        proof {
            assert(out@ =~= residuals@.take(i as int));
        }
    }
    proof {
        assert(residuals@.take(i as int) =~= residuals@);
    }
    out.push(residual.clone());
    seal(out)
}

impl Source {
    /// The filters on this source's rows.
    pub open spec fn filters(self) -> Box<[Residual]> {
        match self {
            Source::Seek { residuals, .. } => residuals,
            Source::Fetch { residuals, .. } => residuals,
        }
    }

    /// The predicate this source's rows are facts of.
    pub open spec fn predicate(self) -> PredicateId {
        match self {
            Source::Seek { access, .. } => access.predicate_id,
            Source::Fetch { predicate, .. } => predicate,
        }
    }

    /// This source with one filter more.
    pub open spec fn filtered_by(self, residual: Residual) -> Source {
        match self {
            Source::Seek { access, residuals } => Source::Seek {
                access,
                residuals: boxed::boxed(residuals@.push(residual)),
            },
            Source::Fetch { reference, path, predicate, residuals } => Source::Fetch {
                reference,
                path,
                predicate,
                residuals: boxed::boxed(residuals@.push(residual)),
            },
        }
    }

    /// The slice one filter more takes holds them all.
    pub open spec fn filter_sealed(self, residual: Residual) -> bool {
        boxed::boxed(self.filters()@.push(residual))@ == self.filters()@.push(residual)
    }

    pub fn residuals(&self) -> (residuals: &[Residual])
        ensures
            residuals@ == self.filters()@,
    {
        match self {
            Source::Seek { residuals, .. } => residuals,
            Source::Fetch { residuals, .. } => residuals,
        }
    }

    pub fn predicate_id(&self) -> (predicate: PredicateId)
        ensures
            predicate == self.predicate(),
    {
        match self {
            Source::Seek { access, .. } => access.predicate_id,
            Source::Fetch { predicate, .. } => *predicate,
        }
    }

    /// The prefix a scan is narrowed to; a fetch has none.
    pub fn seek_key(&self) -> (key: Option<&SeekKey>)
        ensures
            match (*self, key) {
                (Source::Seek { access, .. }, Some(found)) => *found == access.seek_key,
                (Source::Fetch { .. }, None) => true,
                _ => false,
            },
    {
        match self {
            Source::Seek { access, .. } => Some(&access.seek_key),
            Source::Fetch { .. } => None,
        }
    }

    /// Add one filter.
    pub fn filter(self, residual: &Residual) -> (source: Source)
        ensures
            source == self.filtered_by(*residual),
            self.filter_sealed(*residual),
            forall|n: nat|
                source_below(self, n) && op_below(residual.op, n) ==> #[trigger] source_below(
                    source,
                    n,
                ),
    {
        match self {
            Source::Seek { access, residuals } => Source::Seek {
                access,
                residuals: with_one_more(&residuals, residual),
            },
            Source::Fetch { reference, path, predicate, residuals } => Source::Fetch {
                reference,
                path,
                predicate,
                residuals: with_one_more(&residuals, residual),
            },
        }
    }
}

/// Every source with one filter more.
pub open spec fn all_filtered(sources: Seq<Source>, residual: Residual) -> Seq<Source> {
    sources.map_values(|s: Source| s.filtered_by(residual))
}

/// A copy of a seek key.
fn copy_key(key: &SeekKey) -> (copy: SeekKey)
    ensures
        copy == *key,
{
    match key {
        SeekKey::Prefix(bytes) => {
            proof {
                boxed::lemma_boxed(*bytes);
            }
            SeekKey::Prefix(seal_copy(bytes))
        },
        SeekKey::Composite(parts) => {
            let mut out: Vec<SeekKeyPart> = Vec::new();
            let mut i: usize = 0;
            while i < parts.len()
                invariant
                    i <= parts@.len(),
                    out@ == parts@.take(i as int),
                decreases parts@.len() - i,
            {
                out.push(parts[i].clone());
                i += 1;
                proof {
                    assert(out@ =~= parts@.take(i as int));
                }
            }
            proof {
                assert(parts@.take(i as int) =~= parts@);
                boxed::lemma_boxed(*parts);
            }
            SeekKey::Composite(seal(out))
        },
    }
}

/// A copy of some residuals.
fn copy_residuals(residuals: &Box<[Residual]>) -> (copy: Box<[Residual]>)
    ensures
        copy == *residuals,
{
    let mut out: Vec<Residual> = Vec::new();
    let mut i: usize = 0;
    while i < residuals.len()
        invariant
            i <= residuals@.len(),
            out@ == residuals@.take(i as int),
        decreases residuals@.len() - i,
    {
        out.push(residuals[i].clone());
        i += 1;
        proof {
            assert(out@ =~= residuals@.take(i as int));
        }
    }
    proof {
        assert(residuals@.take(i as int) =~= residuals@);
        boxed::lemma_boxed(*residuals);
    }
    seal(out)
}

impl Clone for Source {
    fn clone(&self) -> (source: Self)
        ensures
            source == *self,
    {
        match self {
            Source::Seek { access, residuals } => Source::Seek {
                access: Access {
                    predicate_id: access.predicate_id,
                    seek_key: copy_key(&access.seek_key),
                },
                residuals: copy_residuals(residuals),
            },
            Source::Fetch { reference, path, predicate, residuals } => Source::Fetch {
                reference: *reference,
                path: path.clone(),
                predicate: *predicate,
                residuals: copy_residuals(residuals),
            },
        }
    }
}

impl Level {
    /// The level that fetches the fact `path` of `reference` names.
    pub open spec fn fetching(
        reference: Address,
        path: FieldPath,
        predicate: PredicateId,
        register: Address,
    ) -> Level {
        Level {
            sources: boxed::boxed(
                seq![
                    Source::Fetch { reference, path, predicate, residuals: boxed::boxed(Seq::empty()) },
                ],
            ),
            binds: boxed::boxed(seq![register]),
        }
    }

    /// The slices of the level that fetches a fact hold what they are made of.
    pub open spec fn fetching_sealed(
        reference: Address,
        path: FieldPath,
        predicate: PredicateId,
        register: Address,
    ) -> bool {
        let source = Source::Fetch {
            reference,
            path,
            predicate,
            residuals: boxed::boxed(Seq::empty()),
        };
        &&& boxed::boxed(Seq::<Residual>::empty())@ == Seq::<Residual>::empty()
        &&& boxed::boxed(seq![source])@ == seq![source]
        &&& boxed::boxed(seq![register])@ == seq![register]
    }

    /// The slices one filter more takes hold what they are made of.
    pub open spec fn filter_sealed(self, residual: Residual) -> bool {
        &&& boxed::boxed(all_filtered(self.sources@, residual))@ == all_filtered(
            self.sources@,
            residual,
        )
        &&& forall|i: int|
            0 <= i < self.sources@.len() ==> (#[trigger] self.sources@[i]).filter_sealed(residual)
    }

    /// This level with one filter more on every alternative.
    pub open spec fn filtered_by(self, residual: Residual) -> Level {
        Level { sources: boxed::boxed(all_filtered(self.sources@, residual)), binds: self.binds }
    }

    /// The level that fetches the fact `path` of `reference` names into `register`.
    pub fn fetch(
        reference: Address,
        path: FieldPath,
        predicate: PredicateId,
        register: Address,
    ) -> (level: Level)
        ensures
            level == Level::fetching(reference, path, predicate, register),
            Level::fetching_sealed(reference, path, predicate, register),
            level.binds@ == seq![register],
            forall|n: nat| reference.0 < n ==> #[trigger] sources_below(level.sources@, n),
    {
        let none: Vec<Residual> = Vec::new();
        let mut sources: Vec<Source> = Vec::new();
        sources.push(Source::Fetch { reference, path, predicate, residuals: seal(none) });
        let mut binds: Vec<Address> = Vec::new();
        binds.push(register);
        proof {
            assert(sources@ =~= seq![
                Source::Fetch { reference, path, predicate, residuals: boxed::boxed(Seq::empty()) },
            ]);
            assert(binds@ =~= seq![register]);
        }
        Level { sources: seal(sources), binds: seal(binds) }
    }

    /// Add one filter to every alternative.
    pub fn filter(&mut self, residual: &Residual)
        ensures
            *final(self) == old(self).filtered_by(*residual),
            old(self).filter_sealed(*residual),
            forall|n: nat|
                sources_below(old(self).sources@, n) && op_below(residual.op, n)
                    ==> #[trigger] sources_below(final(self).sources@, n),
    {
        let mut sources: Vec<Source> = Vec::new();
        let mut i: usize = 0;
        while i < self.sources.len()
            invariant
                *self == *old(self),
                i <= self.sources@.len(),
                sources@ == all_filtered(self.sources@, *residual).take(i as int),
                forall|j: int|
                    0 <= j < i ==> (#[trigger] self.sources@[j]).filter_sealed(*residual),
                forall|n: nat, j: int|
                    0 <= j < i && source_below(self.sources@[j], n) && op_below(residual.op, n)
                        ==> #[trigger] source_below(sources@[j], n),
            decreases self.sources@.len() - i,
        {
            let source = self.sources[i].clone().filter(residual);
            let ghost before = sources@;
            sources.push(source);
            i += 1;
            proof {
                assert forall|n: nat, j: int|
                    0 <= j < i && source_below(self.sources@[j], n) && op_below(
                        residual.op,
                        n,
                    ) implies #[trigger] source_below(sources@[j], n) by {
                    if j < i - 1 {
                        assert(sources@[j] == before[j]);
                    }
                }
                assert(sources@ =~= all_filtered(self.sources@, *residual).take(i as int));
            }
        }
        proof {
            assert(sources@ =~= all_filtered(self.sources@, *residual));
            assert forall|n: nat|
                sources_below(self.sources@, n) && op_below(
                    residual.op,
                    n,
                ) implies #[trigger] sources_below(sources@, n) by {
                assert forall|j: int| 0 <= j < sources@.len() implies source_below(
                    #[trigger] sources@[j],
                    n,
                ) by {
                    assert(source_below(self.sources@[j], n));
                }
            }
        }
        self.sources = seal(sources);
    }

    /// The one predicate every alternative reads, if there is one.
    pub open spec fn predicate(self) -> Option<PredicateId> {
        if self.sources@.len() > 0 && (forall|i: int|
            0 <= i < self.sources@.len() ==> (#[trigger] self.sources@[i]).predicate()
                == self.sources@[0].predicate()) {
            Some(self.sources@[0].predicate())
        } else {
            None
        }
    }

    /// The one predicate every alternative reads. `None` for the empty relation, and
    /// for a disjunction spanning predicates.
    pub fn predicate_id(&self) -> (predicate: Option<PredicateId>)
        ensures
            predicate == self.predicate(),
    {
        if self.sources.len() == 0 {
            return None;
        }
        let first: PredicateId = self.sources[0].predicate_id();
        let mut i: usize = 1;
        while i < self.sources.len()
            invariant
                1 <= i <= self.sources@.len(),
                first == self.sources@[0].predicate(),
                forall|j: int|
                    0 <= j < i ==> (#[trigger] self.sources@[j]).predicate() == first,
            decreases self.sources@.len() - i,
        {
            if self.sources[i].predicate_id() != first {
                return None;
            }
            i += 1;
        }
        Some(first)
    }

    /// The only alternative, if there is exactly one.
    pub fn sole_source(&self) -> (source: Option<&Source>)
        ensures
            match source {
                Some(found) => self.sources@.len() == 1 && *found == self.sources@[0],
                None => self.sources@.len() != 1,
            },
    {
        if self.sources.len() == 1 {
            Some(&self.sources[0])
        } else {
            None
        }
    }
}

/// How many of the steps are levels.
pub open spec fn level_count(steps: Seq<Step>) -> nat
    decreases steps.len(),
{
    if steps.len() == 0 {
        0
    } else if steps.last() is Level {
        level_count(steps.drop_last()) + 1
    } else {
        level_count(steps.drop_last())
    }
}

/// The position of the step that is level number `k`.
pub open spec fn level_position(steps: Seq<Step>, k: nat) -> Option<nat>
    decreases steps.len(),
{
    if steps.len() == 0 {
        None
    } else if level_position(steps.drop_last(), k) is Some {
        level_position(steps.drop_last(), k)
    } else if steps.last() is Level && level_count(steps.drop_last()) == k {
        Some((steps.len() - 1) as nat)
    } else {
        None
    }
}

/// Level number `k` is a level, with `k` levels before it.
pub proof fn lemma_level_position(steps: Seq<Step>, k: nat)
    ensures
        match level_position(steps, k) {
            Some(at) => {
                &&& at < steps.len()
                &&& steps[at as int] is Level
                &&& level_count(steps.take(at as int)) == k
                &&& k < level_count(steps)
            },
            None => k >= level_count(steps),
        },
    decreases steps.len(),
{
    if steps.len() > 0 {
        lemma_level_position(steps.drop_last(), k);
        if let Some(at) = level_position(steps.drop_last(), k) {
            assert(steps.drop_last().take(at as int) =~= steps.take(at as int));
        } else {
            assert(steps.take(steps.len() - 1) =~= steps.drop_last());
        }
    }
}

/// The step that is level number `k`, searching a longer body.
pub proof fn lemma_level_position_take(steps: Seq<Step>, k: nat, n: int)
    requires
        0 <= n <= steps.len(),
        level_position(steps.take(n), k) is Some,
    ensures
        level_position(steps, k) == level_position(steps.take(n), k),
    decreases steps.len(),
{
    if n < steps.len() {
        assert(steps.drop_last().take(n) =~= steps.take(n));
        lemma_level_position_take(steps.drop_last(), k, n);
    } else {
        assert(steps.take(n) =~= steps);
    }
}

/// The position of the step that is level number `k`.
pub fn find_level(steps: &[Step], k: usize) -> (at: Option<usize>)
    ensures
        match at {
            Some(i) => level_position(steps@, k as nat) == Some(i as nat) && i < steps@.len()
                && steps@[i as int] is Level,
            None => level_position(steps@, k as nat) is None,
        },
{
    let mut seen: usize = 0;
    let mut i: usize = 0;
    while i < steps.len()
        invariant
            i <= steps@.len(),
            seen <= i,
            seen == level_count(steps@.take(i as int)),
            level_position(steps@.take(i as int), k as nat) is None,
        decreases steps@.len() - i,
    {
        proof {
            assert(steps@.take(i + 1).drop_last() =~= steps@.take(i as int));
        }
        if let Step::Level(_) = &steps[i] {
            if seen == k {
                proof {
                    lemma_level_position_take(steps@, k as nat, i + 1);
                }
                return Some(i);
            }
            seen += 1;
        }
        i += 1;
    }
    proof {
        assert(steps@.take(i as int) =~= steps@);
    }
    None
}

impl Program {
    /// How many steps are levels.
    pub fn levels(&self) -> (n: usize)
        ensures
            n == level_count(self.body@),
    {
        let mut n: usize = 0;
        let mut i: usize = 0;
        while i < self.body.len()
            invariant
                i <= self.body@.len(),
                n <= i,
                n == level_count(self.body@.take(i as int)),
            decreases self.body@.len() - i,
        {
            proof {
                assert(self.body@.take(i + 1).drop_last() =~= self.body@.take(i as int));
            }
            if let Step::Level(_) = &self.body[i] {
                n += 1;
            }
            i += 1;
        }
        proof {
            assert(self.body@.take(i as int) =~= self.body@);
        }
        n
    }

    /// Level number `k`.
    pub fn level(&self, k: usize) -> (level: Option<&Level>)
        ensures
            match (level, level_position(self.body@, k as nat)) {
                (Some(found), Some(at)) => self.body@[at as int] == Step::Level(*found),
                (None, None) => true,
                _ => false,
            },
    {
        match find_level(&self.body, k) {
            Some(i) => match &self.body[i] {
                Step::Level(level) => Some(level),
                _ => None,
            },
            None => None,
        }
    }
}

// ---- programs that are plans ------------------------------------------------

/// The scan a step is, if it is one: a level with one alternative, which is a seek.
pub open spec fn scan_of(step: Step) -> Option<Generator> {
    match step {
        Step::Level(level) => if level.sources@.len() == 1 {
            match level.sources@[0] {
                Source::Seek { access, residuals } => Some(
                    Generator { access, binds: level.binds, residuals },
                ),
                Source::Fetch { .. } => None,
            }
        } else {
            None
        },
        _ => None,
    }
}

/// Whether `plan` scans what the program's steps scan, in order, and answers the same.
pub open spec fn is_plan_of(plan: Plan, program: Program) -> bool {
    &&& plan.nvars == program.nvars
    &&& plan.head == program.head
    &&& plan.body@.len() == program.body@.len()
    &&& forall|i: int|
        0 <= i < program.body@.len() ==> scan_of(#[trigger] program.body@[i]) == Some(
            plan.body@[i],
        )
}

fn copy_scan(step: &Step) -> (scan: Option<Generator>)
    ensures
        scan == scan_of(*step),
{
    let level: &Level = match step {
        Step::Level(level) => level,
        _ => return None,
    };
    match level.sole_source() {
        Some(Source::Seek { access, residuals }) => {
            proof {
                boxed::lemma_boxed(level.binds);
            }
            Some(
                Generator {
                    access: Access {
                        predicate_id: access.predicate_id,
                        seek_key: copy_key(&access.seek_key),
                    },
                    binds: seal_copy(&level.binds),
                    residuals: copy_residuals(residuals),
                },
            )
        },
        _ => None,
    }
}

impl Program {
    /// The plan a program is, where every step of it is a scan.
    pub fn into_plan(self) -> (plan: Option<Plan>)
        ensures
            match plan {
                Some(plan) => is_plan_of(plan, self),
                None => exists|i: int|
                    0 <= i < self.body@.len() && scan_of(#[trigger] self.body@[i]) is None,
            },
    {
        let mut scans: Vec<Generator> = Vec::new();
        let mut i: usize = 0;
        while i < self.body.len()
            invariant
                i <= self.body@.len(),
                scans@.len() == i,
                forall|j: int|
                    0 <= j < i ==> scan_of(#[trigger] self.body@[j]) == Some(scans@[j]),
            decreases self.body@.len() - i,
        {
            match copy_scan(&self.body[i]) {
                Some(scan) => scans.push(scan),
                None => return None,
            }
            i += 1;
        }
        Some(Plan { nvars: self.nvars, body: seal(scans), head: self.head })
    }
}

// ---- scope ------------------------------------------------------------------

/// A part reads a register below `n`, or none.
pub open spec fn part_below(part: SeekKeyPart, n: nat) -> bool {
    match part {
        SeekKeyPart::Bytes(_) => true,
        SeekKeyPart::RegisterField { address, .. } => address.0 < n,
        SeekKeyPart::RegisterFactId(address) => address.0 < n,
    }
}

/// A filter reads a register below `n`, or none.
pub open spec fn op_below(op: ResidualOp, n: nat) -> bool {
    match op {
        ResidualOp::EqRegisterField { address, .. } => address.0 < n,
        ResidualOp::EqRegisterFactId(address) => address.0 < n,
        _ => true,
    }
}

pub open spec fn parts_below(parts: Seq<SeekKeyPart>, n: nat) -> bool {
    forall|i: int| 0 <= i < parts.len() ==> part_below(#[trigger] parts[i], n)
}

pub open spec fn filters_below(filters: Seq<Residual>, n: nat) -> bool {
    forall|i: int| 0 <= i < filters.len() ==> op_below((#[trigger] filters[i]).op, n)
}

/// Everything a source reads is in a register below `n`.
pub open spec fn source_below(source: Source, n: nat) -> bool {
    match source {
        Source::Seek { access, residuals } => {
            &&& access.seek_key matches SeekKey::Composite(parts) ==> parts_below(parts@, n)
            &&& filters_below(residuals@, n)
        },
        Source::Fetch { reference, residuals, .. } => {
            &&& reference.0 < n
            &&& filters_below(residuals@, n)
        },
    }
}

pub open spec fn sources_below(sources: Seq<Source>, n: nat) -> bool {
    forall|i: int| 0 <= i < sources.len() ==> source_below(#[trigger] sources[i], n)
}

/// A step that comes after `n` levels reads only the registers those fill.
pub open spec fn step_below(step: Step, n: nat) -> bool {
    match step {
        Step::Level(level) => sources_below(level.sources@, n),
        Step::Test(Test::Absent(sources)) => sources_below(sources@, n),
        Step::Derive(_) => true,
    }
}

/// Every step reads only registers that levels before it fill.
pub open spec fn well_scoped(steps: Seq<Step>) -> bool {
    forall|i: int|
        0 <= i < steps.len() ==> step_below(#[trigger] steps[i], level_count(steps.take(i)))
}

/// A projection reads only registers below `n`.
pub open spec fn projects_below(projection: Projection, n: nat) -> bool
    decreases projection,
{
    match projection {
        Projection::RegisterField { address, .. } => address.0 < n,
        Projection::FactRef(address) => address.0 < n,
        Projection::Computed(address) => address.0 < n,
        Projection::Value { address, .. } => address.0 < n,
        Projection::Record(fields) => forall|i: int|
            0 <= i < fields.len() ==> projects_below((#[trigger] fields[i]).1, n),
        _ => true,
    }
}

/// Whether a step is a level.
pub open spec fn is_level() -> spec_fn(Step) -> bool {
    |step: Step| step is Level
}

proof fn lemma_levels(steps: Seq<Step>, k: nat)
    ensures
        level_count(steps) == steps.filter(is_level()).len(),
        level_position(steps, k) matches Some(at) ==> at < steps.len() && k < steps.filter(
            is_level(),
        ).len() && steps[at as int] == steps.filter(is_level())[k as int],
        level_position(steps, k) is None ==> k >= steps.filter(is_level()).len(),
    decreases steps.len(),
{
    reveal(Seq::filter);
    if steps.len() > 0 {
        lemma_levels(steps.drop_last(), k);
    }
}

/// The levels of a program are its steps that are levels, all of them, numbered in order.
pub proof fn law_levels_are_numbered_in_order(steps: Seq<Step>, k: nat)
    ensures
        level_count(steps) == steps.filter(is_level()).len(),
        match level_position(steps, k) {
            Some(at) => at < steps.len() && k < steps.filter(is_level()).len() && steps[at as int]
                == steps.filter(is_level())[k as int],
            None => k >= steps.filter(is_level()).len(),
        },
{
    lemma_levels(steps, k);
}

} // verus!
