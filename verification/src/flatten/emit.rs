//! Emitting the program: the statements in the chosen order, a register per level.
use vstd::prelude::*;

use super::collect;
use super::collect::Collected;
use super::collecting;
use super::collecting::Gathered;
use super::emitting;
use super::emitting::{Built, Safety};
use super::model;
use super::scope;
use super::model::{
    Alt, Bytes, Compare, Cx, Gen, Seek, Slot, St, Stmt, SAY_CAPTURED, SAY_COMPARE_FIELDS,
    SAY_DIFFERENT_FIELD, SAY_NOTHING_BINDS, SAY_PATTERN, SAY_PREFIX_VARIABLE, SAY_QUOTE,
    SAY_SAME_ROW, SAY_VALUE_MATCH_ROW,
};
use super::state;
use super::state::{Const, Flattener, SeekBuilder};
use crate::boxed::seal;
use crate::bytes::starts_with;
use crate::diag::Code;
use crate::iter::Address;
use crate::plan::{Access, FieldPath, Project, Projection, Residual, ResidualOp};
use crate::program;
use crate::program::{find_level, Level, Program, Source, Step, Test};
use crate::reorder::{contains, extend};
use crate::schema::{PredicateId, PredicateTy, Symbol};
use crate::syntax;
use crate::syntax::{Ast, ExprKind, Literal, NodeId, NodeSpan};
use crate::text::around;
use crate::tuple::Value;

verus! {

// ---- the body under construction --------------------------------------------

/// The program body under construction: the steps in order, and the count of those
/// that are levels.
///
/// A register is the position of the level that fills it, and only a level fills one,
/// so once a step can be a test, the number of steps and the next register are two
/// different numbers.
pub struct Body {
    pub steps: Vec<Step>,
    pub levels: usize,
}

impl View for Body {
    type V = Built;

    open spec fn view(&self) -> Built {
        Built { steps: self.steps@, levels: self.levels as nat }
    }
}

impl Body {
    pub fn new(capacity: usize) -> (body: Self)
        ensures
            body@ == (Built { steps: Seq::empty(), levels: 0 }),
            body@.wf(),
    {
        Body { steps: Vec::with_capacity(capacity), levels: 0 }
    }

    /// The register the next level will fill, which is also one no existing level has.
    pub fn next_address(&self) -> (address: Address)
        ensures
            address == self@.next(),
    {
        Address::new(self.levels)
    }

    /// Append a level, returning the register it fills.
    pub fn push_level(&mut self, level: Level) -> (address: Address)
        requires
            old(self)@.wf(),
            level.binds@ == seq![old(self)@.next()],
        ensures
            final(self)@ == old(self)@.with_level(level),
            final(self)@.wf(),
            address == old(self)@.next(),
    {
        proof {
            lemma_level_count_len(self.steps@);
            lemma_with_level(self@, level);
        }
        let address = self.next_address();
        self.steps.push(Step::Level(level));
        proof {
            assert(self.steps.len() == self.steps@.len());
        }
        self.levels = self.levels + 1;
        address
    }

    pub fn push_test(&mut self, test: Test)
        requires
            old(self)@.wf(),
        ensures
            final(self)@ == old(self)@.with_test(test),
            final(self)@.wf(),
    {
        proof {
            lemma_with_test(self@, test);
        }
        self.steps.push(Step::Test(test));
    }

    /// The level that fills `address`, by position among the levels.
    pub fn level_mut(&mut self, address: Address) -> (level: Option<&mut Level>)
        ensures
            match (level, program::level_position(old(self).steps@, address.0 as nat)) {
                (Some(found), Some(at)) => {
                    &&& old(self).steps@[at as int] == Step::Level(*found)
                    &&& final(self).steps@ == old(self).steps@.update(
                        at as int,
                        Step::Level(*final(found)),
                    )
                    &&& final(self).levels == old(self).levels
                },
                (None, None) => *final(self) == *old(self),
                _ => false,
            },
    {
        match find_level(&self.steps, address.index()) {
            Some(at) => match &mut self.steps[at] {
                Step::Level(level) => Some(level),
                _ => None,
            },
            None => None,
        }
    }

    /// Add a filter to every alternative of the level that fills `address`.
    fn filter(&mut self, address: Address, residual: &Residual)
        requires
            old(self)@.wf(),
        ensures
            final(self)@ == old(self)@.filtered(address, *residual),
            old(self)@.filter_sealed(address, *residual),
            final(self)@.wf(),
            program::op_below(residual.op, address.0 as nat) && program::well_scoped(
                old(self).steps@,
            ) ==> program::well_scoped(final(self).steps@),
    {
        proof {
            lemma_filtered(self@, address, *residual);
            program::lemma_level_position(self.steps@, address.0 as nat);
        }
        if let Some(level) = self.level_mut(address) {
            level.filter(residual);
        }
        proof {
            if let Some(at) = program::level_position(old(self).steps@, address.0 as nat) {
                if program::op_below(residual.op, address.0 as nat) && program::well_scoped(
                    old(self).steps@,
                ) {
                    lemma_filter_scoped(
                        old(self).steps@,
                        at as int,
                        self.steps@[at as int]->Level_0,
                    );
                }
            }
        }
    }
}

proof fn lemma_level_count_len(steps: Seq<Step>)
    ensures
        program::level_count(steps) <= steps.len(),
    decreases steps.len(),
{
    if steps.len() > 0 {
        lemma_level_count_len(steps.drop_last());
    }
}

proof fn lemma_with_level(built: Built, level: Level)
    requires
        built.wf(),
        level.binds@ == seq![built.next()],
    ensures
        built.with_level(level).wf(),
{
    let after = built.with_level(level).steps;
    assert(after.drop_last() =~= built.steps);
    assert forall|i: int| 0 <= i < after.len() implies ((#[trigger] after[i]) matches Step::Level(
        inner,
    ) ==> inner.binds@ == seq![Address(program::level_count(after.take(i)) as usize)]) by {
        assert(after.take(i) =~= built.steps.take(i));
        if i < built.steps.len() {
            assert(after[i] == built.steps[i]);
        } else {
            assert(built.steps.take(i) =~= built.steps);
        }
    }
}

proof fn lemma_with_test(built: Built, test: Test)
    requires
        built.wf(),
    ensures
        built.with_test(test).wf(),
{
    let after = built.with_test(test).steps;
    assert(after.drop_last() =~= built.steps);
    assert forall|i: int| 0 <= i < after.len() implies ((#[trigger] after[i]) matches Step::Level(
        inner,
    ) ==> inner.binds@ == seq![Address(program::level_count(after.take(i)) as usize)]) by {
        if i < built.steps.len() {
            assert(after[i] == built.steps[i]);
            assert(after.take(i) =~= built.steps.take(i));
        }
    }
}

proof fn lemma_level_count_update(steps: Seq<Step>, at: int, level: Level, n: int)
    requires
        0 <= at < steps.len(),
        steps[at] is Level,
        0 <= n <= steps.len(),
    ensures
        program::level_count(steps.update(at, Step::Level(level)).take(n)) == program::level_count(
            steps.take(n),
        ),
    decreases n,
{
    if n > 0 {
        lemma_level_count_update(steps, at, level, n - 1);
        let after = steps.update(at, Step::Level(level));
        assert(after.take(n).drop_last() =~= after.take(n - 1));
        assert(steps.take(n).drop_last() =~= steps.take(n - 1));
    }
}

/// Replacing a level by one that reads no further in keeps the body well scoped.
proof fn lemma_filter_scoped(steps: Seq<Step>, at: int, level: Level)
    requires
        0 <= at < steps.len(),
        steps[at] is Level,
        program::well_scoped(steps),
        program::sources_below(level.sources@, program::level_count(steps.take(at))),
    ensures
        program::well_scoped(steps.update(at, Step::Level(level))),
{
    let after = steps.update(at, Step::Level(level));
    assert forall|i: int| 0 <= i < after.len() implies program::step_below(
        #[trigger] after[i],
        program::level_count(after.take(i)),
    ) by {
        lemma_level_count_update(steps, at, level, i);
        if i != at {
            assert(after[i] == steps[i]);
        }
    }
}

proof fn lemma_filtered(built: Built, address: Address, residual: Residual)
    requires
        built.wf(),
    ensures
        built.filtered(address, residual).wf(),
{
    program::lemma_level_position(built.steps, address.0 as nat);
    if let Some(at) = program::level_position(built.steps, address.0 as nat) {
        let level = built.steps[at as int]->Level_0.filtered_by(residual);
        let after = built.steps.update(at as int, Step::Level(level));
        assert(after.take(after.len() as int) =~= after);
        assert(built.steps.take(after.len() as int) =~= built.steps);
        lemma_level_count_update(built.steps, at as int, level, after.len() as int);
        assert forall|i: int| 0 <= i < after.len() implies ((#[trigger] after[i])
            matches Step::Level(inner) ==> inner.binds@ == seq![
            Address(program::level_count(after.take(i)) as usize),
        ]) by {
            lemma_level_count_update(built.steps, at as int, level, i);
            assert(built.steps[i] is Level || after[i] == built.steps[i]);
        }
    }
}

impl<'a> Flattener<'a> {
    // ---- following a reference --------------------------------------------------

    /// Fetch for every reference `node` reads through. A reference is an id, and a
    /// field of the fact it names is bytes in that fact's key, so the fact becomes a
    /// level of its own: an outer one, since this is called before the reading
    /// statement's own register is taken.
    pub fn fetch_within(&mut self, node: NodeId, body: &mut Body)
        requires
            old(self).ok(),
            old(self).cx().ast.has(node),
            old(body)@.wf(),
        ensures
            (final(self).st(), final(body)@) == emitting::fetch_within(
                old(self).cx(),
                old(self).st(),
                old(body)@,
                node,
            ),
            final(self).cx() == old(self).cx(),
            final(self).ok(),
            final(body)@.wf(),
            scope::keeps(old(self).st(), old(body)@, final(self).st(), final(body)@),
        decreases node.0, 1nat,
    {
        let ast: &'a Ast = self.ast;
        proof {
            scope::lemma_keeps_refl(self.st(), body@);
        }
        match ast.store().kind(node) {
            ExprKind::Record(fields) => {
                let mut k: usize = 0;
                while k < fields.len()
                    invariant
                        self.ok(),
                        self.cx() == old(self).cx(),
                        ast == self.ast,
                        ast.has(node),
                        ast.kind(node) == ExprKind::Record(*fields),
                        body@.wf(),
                        scope::keeps(old(self).st(), old(body)@, self.st(), body@),
                        k <= fields@.len(),
                        (self.st(), body@) == emitting::fetch_fields(
                            old(self).cx(),
                            old(self).st(),
                            old(body)@,
                            node,
                            fields@,
                            k as nat,
                        ),
                    decreases fields@.len() - k,
                {
                    proof {
                        state::lemma_child(self.cx(), node, *fields, k as int);
                    }
                    let ghost before = (self.st(), body@);
                    self.fetch_within(fields[k].1, body);
                    proof {
                        scope::lemma_keeps(
                            old(self).st(),
                            old(body)@,
                            before.0,
                            before.1,
                            self.st(),
                            body@,
                        );
                    }
                    k += 1;
                }
            },
            ExprKind::Access(_, base) => {
                self.fetch_base(node, *base, body);
            },
            ExprKind::Select(_, base) => {
                self.fetch_base(node, *base, body);
            },
            _ => {},
        }
    }

    /// What an access needs of its base, innermost first: each hop has to be a register
    /// before the next one can be read out of it.
    fn fetch_base(&mut self, node: NodeId, base: NodeId, body: &mut Body)
        requires
            old(self).ok(),
            old(self).cx().ast.has(node),
            old(self).cx().ast.kind(node) matches ExprKind::Access(_, b) ==> b == base,
            old(self).cx().ast.kind(node) matches ExprKind::Select(_, b) ==> b == base,
            old(self).cx().ast.kind(node) is Access || old(self).cx().ast.kind(node) is Select,
            old(body)@.wf(),
        ensures
            (final(self).st(), final(body)@) == emitting::fetch_base(
                old(self).cx(),
                old(self).st(),
                old(body)@,
                node,
                base,
            ),
            final(self).cx() == old(self).cx(),
            final(self).ok(),
            final(body)@.wf(),
            scope::keeps(old(self).st(), old(body)@, final(self).st(), final(body)@),
        decreases node.0, 0nat,
    {
        proof {
            assert(syntax::children_below(
                self.ast.tree().kinds()[node.0 as int],
                node.0 as nat,
            ));
        }
        self.fetch_within(base, body);
        let ghost walked = self.st();
        let found = self.resolve(base);
        let ghost resolved = (self.st(), body@);
        proof {
            if scope::within(old(self).st(), old(body)@.levels) {
                scope::lemma_resolve_in(self.cx(), walked, base, body@.levels, body@.levels);
                scope::lemma_keeps_places(walked, self.st(), body@);
                scope::lemma_keeps(
                    old(self).st(),
                    old(body)@,
                    walked,
                    body@,
                    self.st(),
                    body@,
                );
            }
        }
        match found {
            Some(Slot::Field { address, path, ty: PredicateTy::Fact(predicate) }) => {
                self.fetch_level(address, path, predicate, body);
                proof {
                    if scope::within(old(self).st(), old(body)@.levels) {
                        scope::lemma_keeps(
                            old(self).st(),
                            old(body)@,
                            resolved.0,
                            resolved.1,
                            self.st(),
                            body@,
                        );
                    }
                }
            },
            _ => {},
        }
    }

    /// Add the level that fetches the fact `path` of `address` names, the first time
    /// that reference is read through.
    fn fetch_level(
        &mut self,
        address: Address,
        path: FieldPath,
        predicate: PredicateId,
        body: &mut Body,
    )
        requires
            old(self).ok(),
            old(body)@.wf(),
        ensures
            (final(self).st(), final(body)@) == emitting::fetch_level(
                old(self).st(),
                old(body)@,
                address,
                path,
                predicate,
            ),
            final(self).cx() == old(self).cx(),
            final(self).ok(),
            final(body)@.wf(),
            address.0 < old(body)@.levels ==> scope::keeps(
                old(self).st(),
                old(body)@,
                final(self).st(),
                final(body)@,
            ),
    {
        proof {
            scope::lemma_keeps_refl(self.st(), body@);
        }
        if let Some(_) = self.fetched_register(address, &path) {
            return;
        }
        let register: Address = body.next_address();
        let level = Level::fetch(address, path.clone(), predicate, register);
        proof {
            scope::lemma_keeps_fetch(self.st(), body@, address, path, level);
        }
        body.push_level(level);
        self.fetched.push((address, path, register));
        proof {
            state::lemma_ok_same(self.cx(), old(self).st(), self.st());
        }
    }

    // ---- levels and tests -------------------------------------------------------

    /// Check a later branch's bindings against the ones the first branch made. A
    /// variable both bind has to name the same place, because the plan carries one path
    /// per read and the register holds whichever branch's row matched. One that only one
    /// branch binds is not bound after the statement.
    fn reconcile(&mut self, at: NodeId, first: &Vec<(Symbol, Slot)>, branch: &Vec<(Symbol, Slot)>)
        requires
            old(self).ok(),
            old(self).cx().ast.has(at),
        ensures
            final(self).st() == emitting::reconciled(
                old(self).cx(),
                old(self).st(),
                at,
                first@,
                branch@,
                branch@.len(),
            ),
            final(self).cx() == old(self).cx(),
            final(self).ok(),
            final(self).st().bindings == old(self).st().bindings,
    {
        let mut k: usize = 0;
        while k < branch.len()
            invariant
                self.ok(),
                self.cx() == old(self).cx(),
                self.cx().ast.has(at),
                k <= branch@.len(),
                self.st() == emitting::reconciled(
                    old(self).cx(),
                    old(self).st(),
                    at,
                    first@,
                    branch@,
                    k as nat,
                ),
                self.st().bindings == old(self).st().bindings,
            decreases branch@.len() - k,
        {
            let symbol: Symbol = branch[k].0;
            let mut i: usize = 0;
            let mut agrees: bool = true;
            while i < first.len() && first[i].0 != symbol
                invariant
                    i <= first@.len(),
                    emitting::first_slot(first@, symbol, 0) == emitting::first_slot(
                        first@,
                        symbol,
                        i as nat,
                    ),
                decreases first@.len() - i,
            {
                i += 1;
            }
            if i < first.len() {
                agrees = same_place(&first[i].1, &branch[k].1);
            }
            if !agrees {
                let message = around(SAY_QUOTE, self.interner.shown(symbol), SAY_DIFFERENT_FIELD);
                self.report(at, Code::NyiDisjunction, message.as_str());
            }
            k += 1;
        }
    }

    /// The sources of a scan. Each alternative builds its own seek and its own
    /// residuals, because they are two key layouts, and every one is walked in the same
    /// environment: its own bindings are taken off before the next runs.
    fn scan_sources(&mut self, scan: &Gen, address: Address) -> (made: Option<
        (Vec<(Symbol, Slot)>, Vec<Source>),
    >)
        requires
            old(self).ok(),
            collect::alts_ok(old(self).cx(), scan.alternatives@),
        ensures
            ({
                let expected = emitting::scan_sources(
                    old(self).cx(),
                    old(self).st(),
                    scan.alternatives@,
                    scan.alternatives@.len(),
                    address,
                    old(self).st().bindings.len(),
                );
                &&& final(self).st() == expected.st
                &&& match made {
                    Some((first, sources)) => {
                        &&& expected.whole
                        &&& first@ == expected.first
                        &&& sources@ == expected.sources
                        &&& bindings_ok(final(self).cx(), first@)
                        &&& scope::scans(
                            old(self).st(),
                            final(self).st(),
                            first@,
                            sources@,
                            address.0 as nat,
                        )
                    },
                    None => !expected.whole && (scope::within(
                        old(self).st(),
                        address.0 as nat,
                    ) ==> scope::grows(old(self).st(), final(self).st())),
                }
            }),
            final(self).cx() == old(self).cx(),
            final(self).ok(),
    {
        let level_start: usize = self.bindings.len();
        let mut first: Vec<(Symbol, Slot)> = Vec::new();
        let mut sources: Vec<Source> = Vec::new();
        let mut k: usize = 0;
        proof {
            scope::lemma_grows_refl(self.st());
        }
        while k < scan.alternatives.len()
            invariant
                scope::scans(old(self).st(), self.st(), first@, sources@, address.0 as nat),
                self.ok(),
                self.cx() == old(self).cx(),
                collect::alts_ok(self.cx(), scan.alternatives@),
                bindings_ok(self.cx(), first@),
                level_start == old(self).st().bindings.len(),
                self.st().bindings.len() == level_start,
                k <= scan.alternatives@.len(),
                ({
                    let sofar = emitting::scan_sources(
                        old(self).cx(),
                        old(self).st(),
                        scan.alternatives@,
                        k as nat,
                        address,
                        level_start as nat,
                    );
                    &&& sofar.whole
                    &&& sofar.st == self.st()
                    &&& sofar.first == first@
                    &&& sofar.sources == sources@
                }),
            decreases scan.alternatives@.len() - k,
        {
            let alt: Alt = scan.alternatives[k];
            let key_ty: PredicateTy = match self.schema.get(alt.predicate) {
                Some(declared) => declared.key().ty.clone(),
                None => {
                    proof {
                        lemma_scan_fails(
                            old(self).cx(),
                            old(self).st(),
                            scan.alternatives@,
                            (k + 1) as nat,
                            scan.alternatives@.len(),
                            address,
                            level_start as nat,
                        );
                    }
                    return None;
                },
            };
            let mut current = SeekBuilder::new();
            let ghost before = self.st();
            self.key(alt.key, &key_ty, address, &mut current);
            let ghost walked = self.st();
            let ghost seek = current@;
            let branch: Vec<(Symbol, Slot)> = self.bindings.split_off(level_start);
            proof {
                assert(branch@ =~= walked.bindings.skip(level_start as int));
                lemma_ok_take(self.cx(), walked, level_start as int);
                assert(bindings_ok(self.cx(), branch@)) by {
                    assert forall|i: int| 0 <= i < branch@.len() implies state::slot_ok(
                        self.cx(),
                        (#[trigger] branch@[i]).1,
                    ) by {
                        assert(branch@[i] == walked.bindings[level_start + i]);
                    }
                }
                assert(self.st() =~= St {
                    bindings: walked.bindings.take(level_start as int),
                    ..walked
                });
            }
            let source = Source::Seek {
                access: Access { predicate_id: alt.predicate, seek_key: current.seek_key() },
                residuals: seal(current.residuals),
            };
            proof {
                scope::lemma_scans_branch(
                    self.cx(),
                    old(self).st(),
                    before,
                    first@,
                    sources@,
                    alt,
                    key_ty,
                    address,
                    source,
                );
            }
            if k == 0 {
                first = branch;
            } else {
                self.reconcile(alt.key, &first, &branch);
                proof {
                    lemma_shared_ok(self.cx(), first@, branch@, first@.len());
                    scope::lemma_shared_in(
                        first@,
                        branch@,
                        first@.len(),
                        address.0 as nat,
                    );
                }
                first = in_both(&first, &branch);
            }
            sources.push(source);
            k += 1;
        }
        Some((first, sources))
    }

    /// The sources of a negation: the same seeks, and no register. Nothing it names is
    /// unbound by now, so its key splices or filters.
    fn test_sources(&mut self, tested: &Gen, address: Address) -> (made: Option<Vec<Source>>)
        requires
            old(self).ok(),
            collect::alts_ok(old(self).cx(), tested.alternatives@),
        ensures
            ({
                let expected = emitting::test_sources(
                    old(self).cx(),
                    old(self).st(),
                    tested.alternatives@,
                    tested.alternatives@.len(),
                    address,
                );
                &&& final(self).st() == expected.st
                &&& match made {
                    Some(sources) => {
                        &&& expected.whole
                        &&& sources@ == expected.sources
                        &&& scope::tests(
                            old(self).st(),
                            final(self).st(),
                            sources@,
                            address.0 as nat,
                        )
                    },
                    None => !expected.whole && (scope::within(
                        old(self).st(),
                        address.0 as nat,
                    ) ==> scope::grows(old(self).st(), final(self).st())),
                }
            }),
            final(self).cx() == old(self).cx(),
            final(self).ok(),
            old(self).st().bindings.len() <= final(self).st().bindings.len(),
    {
        let mut sources: Vec<Source> = Vec::new();
        let mut k: usize = 0;
        proof {
            if scope::within(self.st(), address.0 as nat) {
                scope::lemma_walkable(self.st(), address.0 as nat);
                scope::lemma_walks_refl(self.st(), address.0 as nat);
            }
        }
        while k < tested.alternatives.len()
            invariant
                scope::tests(old(self).st(), self.st(), sources@, address.0 as nat),
                self.ok(),
                self.cx() == old(self).cx(),
                collect::alts_ok(self.cx(), tested.alternatives@),
                old(self).st().bindings.len() <= self.st().bindings.len(),
                k <= tested.alternatives@.len(),
                ({
                    let sofar = emitting::test_sources(
                        old(self).cx(),
                        old(self).st(),
                        tested.alternatives@,
                        k as nat,
                        address,
                    );
                    &&& sofar.whole
                    &&& sofar.st == self.st()
                    &&& sofar.sources == sources@
                }),
            decreases tested.alternatives@.len() - k,
        {
            let alt: Alt = tested.alternatives[k];
            let key_ty: PredicateTy = match self.schema.get(alt.predicate) {
                Some(declared) => declared.key().ty.clone(),
                None => {
                    proof {
                        lemma_test_fails(
                            old(self).cx(),
                            old(self).st(),
                            tested.alternatives@,
                            (k + 1) as nat,
                            tested.alternatives@.len(),
                            address,
                        );
                    }
                    return None;
                },
            };
            let mut current = SeekBuilder::new();
            let ghost before = self.st();
            self.key(alt.key, &key_ty, address, &mut current);
            let ghost seek = current@;
            let source = Source::Seek {
                access: Access { predicate_id: alt.predicate, seek_key: current.seek_key() },
                residuals: seal(current.residuals),
            };
            proof {
                scope::lemma_tests_branch(
                    self.cx(),
                    old(self).st(),
                    before,
                    sources@,
                    alt,
                    key_ty,
                    address,
                    source,
                );
            }
            sources.push(source);
            k += 1;
        }
        Some(sources)
    }

    /// What one statement becomes. `None` where it names a predicate the schema lacks.
    fn emit_stmt(&mut self, stmt: &Stmt, body: &mut Body) -> (whole: Option<()>)
        requires
            old(self).ok(),
            collect::stmt_ok(old(self).cx(), *stmt),
            old(body)@.wf(),
        ensures
            match (
                whole,
                emitting::emitted_stmt(old(self).cx(), old(self).st(), old(body)@, *stmt),
            ) {
                (Some(_), (st, Some(built))) => final(self).st() == st && final(body)@ == built,
                (None, (st, None)) => final(self).st() == st && (scope::within(
                    old(self).st(),
                    old(body)@.levels,
                ) ==> scope::grows(old(self).st(), final(self).st())),
                _ => false,
            },
            final(self).cx() == old(self).cx(),
            final(self).ok(),
            final(body)@.wf(),
            whole is Some ==> scope::keeps(
                old(self).st(),
                old(body)@,
                final(self).st(),
                final(body)@,
            ),
    {
        proof {
            scope::lemma_keeps_refl(self.st(), body@);
        }
        match stmt {
            Stmt::Scan(scan) => {
                // A key reading through a reference needs the fact it names in a
                // register of its own, so that this level's seek may splice it.
                let mut k: usize = 0;
                while k < scan.alternatives.len()
                    invariant
                        self.ok(),
                        self.cx() == old(self).cx(),
                        collect::alts_ok(self.cx(), scan.alternatives@),
                        body@.wf(),
                        scope::keeps(old(self).st(), old(body)@, self.st(), body@),
                        k <= scan.alternatives@.len(),
                        (self.st(), body@) == emitting::fetch_alts(
                            old(self).cx(),
                            old(self).st(),
                            old(body)@,
                            scan.alternatives@,
                            k as nat,
                        ),
                    decreases scan.alternatives@.len() - k,
                {
                    let ghost before = (self.st(), body@);
                    self.fetch_within(scan.alternatives[k].key, body);
                    proof {
                        scope::lemma_keeps(
                            old(self).st(),
                            old(body)@,
                            before.0,
                            before.1,
                            self.st(),
                            body@,
                        );
                    }
                    k += 1;
                }
                let ghost fetched = (self.st(), body@);
                let address: Address = body.next_address();
                let marked: usize = self.constrained.len();
                let Some((first, sources)) = self.scan_sources(scan, address) else {
                    proof {
                        if scope::within(old(self).st(), old(body)@.levels) {
                            scope::lemma_grows(old(self).st(), fetched.0, self.st());
                        }
                    }
                    return None;
                };
                let ghost made = self.st();
                self.constrained = still_applied(&self.constrained, marked, &first);
                let mut bound: Vec<(Symbol, Slot)> = first;
                self.bindings.append(&mut bound);
                proof {
                    lemma_ok_append(self.cx(), made, first@);
                    assert(self.st() =~= St {
                        bindings: made.bindings + first@,
                        constrained: emitting::applied(
                            made.constrained,
                            marked as nat,
                            first@,
                            made.constrained.len(),
                        ),
                        ..made
                    });
                    state::lemma_ok_same(
                        self.cx(),
                        St { bindings: made.bindings + first@, ..made },
                        self.st(),
                    );
                }
                let ghost extended = self.st();
                if let Some(row) = scan.row {
                    let predicate: Option<PredicateId> = if scan.alternatives.len() > 0 {
                        Some(scan.alternatives[0].predicate)
                    } else {
                        None
                    };
                    self.bindings.push((row, Slot::Row { address, predicate }));
                    proof {
                        state::lemma_ok_binding(
                            self.cx(),
                            extended,
                            row,
                            Slot::Row { address, predicate },
                        );
                    }
                }
                let mut binds: Vec<Address> = Vec::new();
                binds.push(address);
                proof {
                    assert(binds@ =~= seq![address]);
                }
                let level = Level { sources: seal(sources), binds: seal(binds) };
                proof {
                    scope::lemma_keeps_scan(
                        fetched.0,
                        made,
                        first@,
                        body@,
                        level,
                        self.st(),
                    );
                }
                body.push_level(level);
                proof {
                    scope::lemma_keeps(
                        old(self).st(),
                        old(body)@,
                        fetched.0,
                        fetched.1,
                        self.st(),
                        body@,
                    );
                }
                Some(())
            },
            // The order has already put every level this reads into a register, so the
            // slot it names exists by now.
            Stmt::Alias(alias) => {
                self.fetch_within(alias.value, body);
                let ghost first = (self.st(), body@);
                self.fetch_within(alias.pattern, body);
                let ghost second = self.st();
                let found = self.resolve(alias.value);
                let ghost third = self.st();
                proof {
                    scope::lemma_keeps(
                        old(self).st(),
                        old(body)@,
                        first.0,
                        first.1,
                        second,
                        body@,
                    );
                    if scope::within(old(self).st(), old(body)@.levels) {
                        let n = body@.levels;
                        scope::lemma_resolve_in(self.cx(), second, alias.value, n, n);
                        scope::lemma_keeps_places(second, third, body@);
                        scope::lemma_keeps(
                            old(self).st(),
                            old(body)@,
                            second,
                            body@,
                            third,
                            body@,
                        );
                        if found is Some {
                            scope::lemma_bind_pattern_in(
                                self.cx(),
                                third,
                                alias.pattern,
                                found->0,
                                n,
                                n,
                            );
                        }
                    }
                }
                if let Some(slot) = found {
                    self.bind_pattern(alias.pattern, slot);
                    proof {
                        if scope::within(old(self).st(), old(body)@.levels) {
                            scope::lemma_keeps(
                                old(self).st(),
                                old(body)@,
                                third,
                                body@,
                                self.st(),
                                body@,
                            );
                        }
                    }
                }
                Some(())
            },
            Stmt::Negate(tested) => {
                let address: Address = body.next_address();
                let bound: usize = self.bindings.len();
                let Some(sources) = self.test_sources(tested, address) else {
                    return None;
                };
                let ghost walked = self.st();
                // A binding made here would point into a register no level fills.
                self.bindings.truncate(bound);
                proof {
                    lemma_ok_take(self.cx(), walked, bound as int);
                    assert(self.st() =~= St {
                        bindings: walked.bindings.take(bound as int),
                        ..walked
                    });
                }
                let absent = seal(sources);
                proof {
                    scope::lemma_keeps_negation(old(self).st(), walked, body@, absent);
                }
                body.push_test(Test::Absent(absent));
                Some(())
            },
            // Applied by the level that binds the variable, or once every level exists.
            Stmt::Constrain(_) => Some(()),
        }
    }

    // ---- what is added once every level exists ----------------------------------

    /// Turn each recorded compare into a filter on the level that binds later: a
    /// residual is checked against the row a level is scanning, against registers
    /// filled by levels outside it.
    fn apply_compares(&mut self, body: &mut Body)
        requires
            old(self).ok(),
            old(body)@.wf(),
        ensures
            (final(self).st(), final(body)@) == emitting::compared_all(
                old(self).cx(),
                (St { compares: Seq::empty(), ..old(self).st() }),
                old(body)@,
                old(self).st().compares,
                old(self).st().compares.len(),
            ),
            final(self).cx() == old(self).cx(),
            final(self).ok(),
            final(body)@.wf(),
            scope::keeps(old(self).st(), old(body)@, final(self).st(), final(body)@),
    {
        let mut compares: Vec<Compare> = Vec::new();
        std::mem::swap(&mut self.compares, &mut compares);
        let ghost start = self.st();
        proof {
            lemma_ok_no_compares(self.cx(), old(self).st());
            assert(start =~= St { compares: Seq::empty(), ..old(self).st() });
            scope::lemma_grows_refl(start);
        }
        let mut k: usize = 0;
        while k < compares.len()
            invariant
                scope::keeps(old(self).st(), old(body)@, self.st(), body@),
                body@.levels == old(body)@.levels,
                self.ok(),
                self.cx() == old(self).cx(),
                compares@ == old(self).st().compares,
                state::state_ok(old(self).cx(), old(self).st()),
                body@.wf(),
                k <= compares@.len(),
                (self.st(), body@) == emitting::compared_all(
                    old(self).cx(),
                    start,
                    old(body)@,
                    compares@,
                    k as nat,
                ),
            decreases compares@.len() - k,
        {
            let compare: &Compare = &compares[k];
            let ghost before = (self.st(), body@);
            proof {
                assert(self.cx().ast.has(old(self).st().compares[k as int].at));
            }
            match (&compare.left, &compare.right) {
                (
                    Slot::Field { address: left, path: left_path, .. },
                    Slot::Field { address: right, path: right_path, .. },
                ) => {
                    if *left == *right {
                        self.report(compare.at, Code::NyiRepeatedVariable, SAY_SAME_ROW);
                    } else if left.index() > right.index() {
                        body.filter(
                            *left,
                            &Residual {
                                path: left_path.clone(),
                                op: ResidualOp::EqRegisterField {
                                    address: *right,
                                    path: right_path.clone(),
                                },
                            },
                        );
                    } else {
                        body.filter(
                            *right,
                            &Residual {
                                path: right_path.clone(),
                                op: ResidualOp::EqRegisterField {
                                    address: *left,
                                    path: left_path.clone(),
                                },
                            },
                        );
                    }
                },
                _ => {
                    self.report(compare.at, Code::NyiBindUnification, SAY_COMPARE_FIELDS);
                },
            }
            proof {
                if self.st() == before.0 {
                    scope::lemma_keeps_filter(before.0, before.1, body@);
                } else {
                    scope::lemma_report(
                        self.cx(),
                        before.0,
                        compare.at,
                        Code::NyiRepeatedVariable,
                        SAY_SAME_ROW@,
                    );
                    scope::lemma_report(
                        self.cx(),
                        before.0,
                        compare.at,
                        Code::NyiBindUnification,
                        SAY_COMPARE_FIELDS@,
                    );
                    scope::lemma_keeps_places(before.0, self.st(), body@);
                }
                scope::lemma_keeps(
                    old(self).st(),
                    old(body)@,
                    before.0,
                    before.1,
                    self.st(),
                    body@,
                );
            }
            k += 1;
        }
    }

    /// Report that nothing binds a variable.
    fn unbound(&mut self, symbol: Symbol, span: NodeSpan)
        requires
            old(self).ok(),
        ensures
            final(self).st() == emitting::unbound(old(self).st(), symbol, span),
            final(self).cx() == old(self).cx(),
            final(self).ok(),
    {
        let message = around(SAY_NOTHING_BINDS, self.interner.shown(symbol), SAY_CAPTURED);
        self.diagnostics.error(Code::RejectUnboundVariable, message, span);
        proof {
            state::lemma_ok_same(self.cx(), old(self).st(), self.st());
        }
    }

    /// One constraint no capture applied.
    fn apply_constraint(&mut self, symbol: Symbol, pattern: NodeId, body: &mut Body)
        requires
            old(self).ok(),
            old(self).cx().ast.has(pattern),
            old(body)@.wf(),
        ensures
            (final(self).st(), final(body)@) == emitting::constrained(
                old(self).cx(),
                old(self).st(),
                old(body)@,
                symbol,
                pattern,
            ),
            final(self).cx() == old(self).cx(),
            final(self).ok(),
            final(body)@.wf(),
            scope::keeps(old(self).st(), old(body)@, final(self).st(), final(body)@),
    {
        proof {
            scope::lemma_keeps_refl(self.st(), body@);
            state::lemma_lookup_ok(self.cx(), self.st(), symbol);
            scope::lemma_report(
                self.cx(),
                self.st(),
                pattern,
                Code::RejectTypeMismatch,
                SAY_PREFIX_VARIABLE@,
            );
            scope::lemma_report(
                self.cx(),
                self.st(),
                pattern,
                Code::NyiValueMatch,
                SAY_VALUE_MATCH_ROW@,
            );
            scope::lemma_report(
                self.cx(),
                self.st(),
                pattern,
                Code::NyiBindUnification,
                SAY_PATTERN@,
            );
            scope::lemma_unbound(self.st(), symbol, self.cx().ast.span(pattern));
        }
        if contains(&self.constrained, symbol) {
            return;
        }
        match self.lookup(symbol) {
            Some(Slot::Field { address, path, ty }) => match self.constant(pattern, &ty) {
                Some(Const::Bytes(found)) => {
                    body.filter(address, &Residual { path, op: ResidualOp::Prefix(seal(found)) });
                },
                Some(Const::Prefix(found)) => {
                    body.filter(address, &Residual { path, op: ResidualOp::Prefix(seal(found)) });
                },
                None => {
                    self.report(pattern, Code::RejectTypeMismatch, SAY_PREFIX_VARIABLE);
                },
            },
            // Both known now: either the statement is a tautology, or the query is the
            // empty relation, which is a level with no source to open.
            Some(Slot::Const(folded)) => {
                match (
                    self.constant(folded, &PredicateTy::Str),
                    self.constant(pattern, &PredicateTy::Str),
                ) {
                    (Some(Const::Bytes(value)), Some(Const::Prefix(prefix))) => {
                        if !starts_with(&value, &prefix) {
                            let none: Vec<Source> = Vec::new();
                            let mut binds: Vec<Address> = Vec::new();
                            binds.push(body.next_address());
                            let level = Level { sources: seal(none), binds: seal(binds) };
                            proof {
                                assert(level.binds@ =~= seq![body@.next()]);
                                scope::lemma_keeps_empty(self.st(), body@, level);
                            }
                            body.push_level(level);
                        }
                    },
                    _ => {
                        self.report(pattern, Code::RejectTypeMismatch, SAY_PREFIX_VARIABLE);
                    },
                }
            },
            Some(Slot::Value { .. }) => {
                self.report(pattern, Code::NyiValueMatch, SAY_VALUE_MATCH_ROW);
            },
            Some(_) => {
                self.report(pattern, Code::NyiBindUnification, SAY_PATTERN);
            },
            None => {
                let span: NodeSpan = self.ast.store().span(pattern);
                self.unbound(symbol, span);
            },
        }
    }

    /// The constraints no capture applied: every one whose variable is bound somewhere
    /// other than a key field of a level being walked. A constraint silently dropped
    /// would answer with rows the query excludes.
    fn apply_constraints(&mut self, body: &mut Body)
        requires
            old(self).ok(),
            old(body)@.wf(),
        ensures
            (final(self).st(), final(body)@) == emitting::constrained_all(
                old(self).cx(),
                (St { constraints: Seq::empty(), ..old(self).st() }),
                old(body)@,
                old(self).st().constraints,
                old(self).st().constraints.len(),
            ),
            final(self).cx() == old(self).cx(),
            final(self).ok(),
            final(body)@.wf(),
            scope::keeps(old(self).st(), old(body)@, final(self).st(), final(body)@),
    {
        let mut constraints: Vec<(Symbol, NodeId)> = Vec::new();
        std::mem::swap(&mut self.constraints, &mut constraints);
        let ghost start = self.st();
        proof {
            assert(start =~= St { constraints: Seq::empty(), ..old(self).st() });
            scope::lemma_grows_refl(start);
            lemma_ok_no_constraints(self.cx(), old(self).st());
        }
        let mut k: usize = 0;
        while k < constraints.len()
            invariant
                scope::keeps(old(self).st(), old(body)@, self.st(), body@),
                self.ok(),
                self.cx() == old(self).cx(),
                constraints@ == old(self).st().constraints,
                state::state_ok(old(self).cx(), old(self).st()),
                body@.wf(),
                k <= constraints@.len(),
                (self.st(), body@) == emitting::constrained_all(
                    old(self).cx(),
                    start,
                    old(body)@,
                    constraints@,
                    k as nat,
                ),
            decreases constraints@.len() - k,
        {
            let (symbol, pattern) = constraints[k];
            proof {
                assert(self.cx().ast.has(old(self).st().constraints[k as int].1));
            }
            let ghost before = (self.st(), body@);
            self.apply_constraint(symbol, pattern, body);
            proof {
                scope::lemma_keeps(
                    old(self).st(),
                    old(body)@,
                    before.0,
                    before.1,
                    self.st(),
                    body@,
                );
            }
            k += 1;
        }
    }

    // ---- the head ---------------------------------------------------------------

    /// The head as a projection.
    fn project(&mut self, node: NodeId) -> (found: Option<Project>)
        requires
            old(self).ok(),
            old(self).cx().ast.has(node),
        ensures
            match (found, emitting::projected(old(self).cx(), old(self).st(), node)) {
                (Some(project), (st, Some(expected))) => {
                    &&& project.shape() == expected
                    &&& final(self).st() == st
                },
                (None, (st, None)) => final(self).st() == st,
                _ => false,
            },
            final(self).cx() == old(self).cx(),
            final(self).ok(),
        decreases model::rank(old(self).cx(), node), node.0,
    {
        let ast: &'a Ast = self.ast;
        match ast.store().kind(node) {
            ExprKind::Lit(Literal::Int(value)) => Some(Project::Lit(Value::Int(*value))),
            ExprKind::Lit(Literal::Str(symbol)) => match self.interner.try_resolve(*symbol) {
                Some(text) => Some(Project::Lit(Value::Str(text.to_owned()))),
                None => None,
            },
            ExprKind::Record(fields) => {
                let mut out: Vec<(Symbol, Project)> = Vec::new();
                let ghost mut shapes: Seq<(Symbol, Projection)> = Seq::empty();
                let mut k: usize = 0;
                while k < fields.len()
                    invariant
                        self.ok(),
                        self.cx() == old(self).cx(),
                        ast == self.ast,
                        ast.has(node),
                        ast.kind(node) == ExprKind::Record(*fields),
                        k <= fields@.len(),
                        (self.st(), Some(shapes)) == emitting::projected_fields(
                            old(self).cx(),
                            old(self).st(),
                            node,
                            fields@,
                            k as nat,
                        ),
                        out@.len() == shapes.len(),
                        forall|i: int|
                            0 <= i < out@.len() ==> shapes[i] == ((#[trigger] out@[i]).0, out@[i].1.shape()),
                    decreases fields@.len() - k,
                {
                    proof {
                        state::lemma_child(self.cx(), node, *fields, k as int);
                    }
                    match self.project(fields[k].1) {
                        Some(one) => {
                            proof {
                                shapes = shapes.push((fields@[k as int].0, one.shape()));
                            }
                            out.push((fields[k].0, one));
                        },
                        None => {
                            proof {
                                lemma_projected_fields_fail(
                                    old(self).cx(),
                                    old(self).st(),
                                    node,
                                    fields@,
                                    (k + 1) as nat,
                                    fields@.len(),
                                );
                            }
                            return None;
                        },
                    }
                    k += 1;
                }
                let record = Project::Record(out);
                proof {
                    assert(record.shape()->Record_0 =~= shapes);
                }
                Some(record)
            },
            ExprKind::Var(_) | ExprKind::Access(_, _) | ExprKind::Fact(_, _) => {
                match self.resolve(node) {
                    // A variable bound to a whole row projects its identity.
                    Some(Slot::Row { address, .. }) => Some(Project::FactRef(address)),
                    Some(Slot::Key { address, ty }) => match &ty {
                        PredicateTy::Record(tys) => {
                            let mut out: Vec<(Symbol, Project)> = Vec::new();
                            let mut i: usize = 0;
                            while i < tys.len()
                                invariant
                                    i <= tys@.len(),
                                    out@.len() == i,
                                    forall|j: int|
                                        0 <= j < i ==> emitting::key_record(address, tys@)[j] == ((
                                        #[trigger] out@[j]).0, out@[j].1.shape()),
                                    forall|j: int|
                                        0 <= j < i ==> #[trigger] FieldPath::sealed(
                                            j as usize,
                                            Seq::empty(),
                                        ),
                                decreases tys@.len() - i,
                            {
                                out.push(
                                    (
                                        Symbol::Schema(tys[i].0),
                                        Project::RegisterField {
                                            address,
                                            path: FieldPath::field(i),
                                            ty: tys[i].1.clone(),
                                        },
                                    ),
                                );
                                i += 1;
                            }
                            let record = Project::Record(out);
                            proof {
                                assert(record.shape()->Record_0 =~= emitting::key_record(
                                    address,
                                    tys@,
                                ));
                                assert(emitting::key_record_sealed(ty));
                            }
                            Some(record)
                        },
                        _ => None,
                    },
                    Some(Slot::Field { address, path, ty }) => Some(
                        Project::RegisterField { address, path, ty },
                    ),
                    Some(Slot::Value { address, ty }) => Some(Project::Value { address, ty }),
                    // Substitution: project the literal the variable was bound to.
                    Some(Slot::Const(folded)) => self.project(folded),
                    None => None,
                }
            },
            _ => None,
        }
    }

    // ---- all of it --------------------------------------------------------------

    /// Walk the statements in `order`, assigning a register per level and deciding each
    /// key field's fate, then project the head.
    pub fn emit(&mut self, stmts: &Vec<Stmt>, order: &Vec<usize>) -> (found: Option<Program>)
        requires
            old(self).ok(),
            collect::stmts_ok(old(self).cx(), stmts@),
        ensures
            match (found, emitting::emitted(old(self).cx(), old(self).st(), stmts@, order@)) {
                (Some(program), (st, Some(expected))) => {
                    &&& final(self).st() == st
                    &&& program.nvars == expected.nvars
                    &&& program.body@ == expected.body
                    &&& program.head.shape() == expected.head
                    &&& program.nvars == program::level_count(program.body@)
                    &&& emitting::registers_are_positions(program.body@)
                    &&& scope::within(old(self).st(), 0) ==> {
                        &&& program::well_scoped(program.body@)
                        &&& program::projects_below(program.head.shape(), program.nvars as nat)
                        &&& final(self).st().reports == old(self).st().reports
                    }
                },
                (None, (st, None)) => final(self).st() == st && (scope::within(
                    old(self).st(),
                    0,
                ) ==> scope::grows(old(self).st(), final(self).st())),
                _ => false,
            },
            final(self).cx() == old(self).cx(),
            final(self).ok(),
    {
        let mark: usize = self.diagnostics.len();
        let mut body = Body::new(order.len());
        let ghost empty = body@;
        proof {
            scope::lemma_keeps_refl(self.st(), body@);
        }
        let mut k: usize = 0;
        while k < order.len()
            invariant
                scope::keeps(old(self).st(), empty, self.st(), body@),
                self.ok(),
                self.cx() == old(self).cx(),
                collect::stmts_ok(self.cx(), stmts@),
                body@.wf(),
                k <= order@.len(),
                (self.st(), Some(body@)) == emitting::emitted_stmts(
                    old(self).cx(),
                    old(self).st(),
                    stmts@,
                    order@,
                    k as nat,
                ),
            decreases order@.len() - k,
        {
            let i: usize = order[k];
            if i >= stmts.len() {
                proof {
                    lemma_emitted_fails(
                        old(self).cx(),
                        old(self).st(),
                        stmts@,
                        order@,
                        (k + 1) as nat,
                        order@.len(),
                    );
                }
                return None;
            }
            proof {
                assert(collect::stmt_ok(self.cx(), stmts@[i as int]));
            }
            let ghost before = (self.st(), body@);
            match self.emit_stmt(&stmts[i], &mut body) {
                Some(_) => {
                    proof {
                        scope::lemma_keeps(
                            old(self).st(),
                            empty,
                            before.0,
                            before.1,
                            self.st(),
                            body@,
                        );
                    }
                },
                None => {
                    proof {
                        if scope::within(old(self).st(), 0) {
                            scope::lemma_grows(old(self).st(), before.0, self.st());
                        }
                        lemma_emitted_fails(
                            old(self).cx(),
                            old(self).st(),
                            stmts@,
                            order@,
                            (k + 1) as nat,
                            order@.len(),
                        );
                    }
                    return None;
                },
            }
            k += 1;
        }

        // The head reads after every statement has bound, so its own fetches are the
        // innermost levels.
        let head: NodeId = self.ast.query().head;
        let ghost s1 = (self.st(), body@);
        self.fetch_within(head, &mut body);
        let ghost s2 = (self.st(), body@);
        self.apply_compares(&mut body);
        let ghost s3 = (self.st(), body@);
        self.apply_constraints(&mut body);
        let ghost s4 = (self.st(), body@);
        let projection = self.project(head);
        proof {
            scope::lemma_keeps(old(self).st(), empty, s1.0, s1.1, s2.0, s2.1);
            scope::lemma_keeps(old(self).st(), empty, s2.0, s2.1, s3.0, s3.1);
            scope::lemma_keeps(old(self).st(), empty, s3.0, s3.1, s4.0, s4.1);
            if scope::within(old(self).st(), 0) {
                scope::lemma_projected_in(self.cx(), s4.0, head, body@.levels);
                scope::lemma_grows(old(self).st(), s4.0, self.st());
                if self.st().reports.len() == old(self).st().reports.len() {
                    scope::lemma_no_reports(old(self).st(), self.st());
                }
            }
        }

        if self.diagnostics.len() != mark {
            return None;
        }
        match projection {
            Some(head) => Some(Program { nvars: body.levels, body: seal(body.steps), head }),
            None => None,
        }
    }

    // ---- safety -----------------------------------------------------------------

    /// Check some reads: one variable, one diagnostic.
    fn check_reads(
        &mut self,
        reads: &[Symbol],
        span: NodeSpan,
        bound: &Vec<Symbol>,
        missing: &mut Vec<Symbol>,
        ok: bool,
    ) -> (safe: bool)
        requires
            old(self).ok(),
        ensures
            ({
                let after = emitting::check_reads(
                    Safety {
                        st: old(self).st(),
                        bound: bound@,
                        missing: old(missing)@,
                        safe: ok,
                        broken: false,
                    },
                    reads@,
                    reads@.len(),
                    span,
                );
                &&& final(self).st() == after.st
                &&& bound@ == after.bound
                &&& final(missing)@ == after.missing
                &&& safe == after.safe
                &&& !after.broken
            }),
            final(self).cx() == old(self).cx(),
            final(self).ok(),
    {
        let ghost before = Safety {
            st: old(self).st(),
            bound: bound@,
            missing: old(missing)@,
            safe: ok,
            broken: false,
        };
        let mut safe: bool = ok;
        let mut k: usize = 0;
        while k < reads.len()
            invariant
                self.ok(),
                self.cx() == old(self).cx(),
                k <= reads@.len(),
                (Safety {
                    st: self.st(),
                    bound: bound@,
                    missing: missing@,
                    safe,
                    broken: false,
                }) == emitting::check_reads(before, reads@, k as nat, span),
            decreases reads@.len() - k,
        {
            let read: Symbol = reads[k];
            if !contains(bound, read) && !contains(missing, read) {
                missing.push(read);
                self.unbound(read, span);
                safe = false;
            }
            k += 1;
        }
        safe
    }

    /// Range restriction, over the chosen order: every variable a statement or the head
    /// reads must have been captured by then.
    pub fn safe(&mut self, collected: &Collected, order: &Vec<usize>) -> (safe: bool)
        requires
            old(self).ok(),
            collected.stmts@.len() == collected.deps.stmts().len(),
        ensures
            ({
                let expected = emitting::safety(
                    old(self).cx(),
                    old(self).st(),
                    collected@,
                    order@,
                );
                &&& final(self).st() == expected.st
                &&& safe == expected.safe
            }),
            final(self).cx() == old(self).cx(),
            final(self).ok(),
    {
        // A folded constant is bound before any level runs.
        let mut bound: Vec<Symbol> = Vec::new();
        self.folded(&mut bound);
        proof {
            assert(bound@ =~= collecting::folded(self.st().bindings, self.st().bindings.len()));
        }
        let mut missing: Vec<Symbol> = Vec::new();
        let mut ok: bool = true;
        let mut k: usize = 0;
        while k < order.len()
            invariant
                self.ok(),
                self.cx() == old(self).cx(),
                collected.stmts@.len() == collected.deps.stmts().len(),
                k <= order@.len(),
                (Safety {
                    st: self.st(),
                    bound: bound@,
                    missing: missing@,
                    safe: ok,
                    broken: false,
                }) == emitting::safe_stmts(old(self).st(), collected@, order@, k as nat),
            decreases order@.len() - k,
        {
            let i: usize = order[k];
            let Some(deps) = collected.deps.stmt(i) else {
                proof {
                    lemma_broken(
                        old(self).st(),
                        collected@,
                        order@,
                        (k + 1) as nat,
                        order@.len(),
                    );
                }
                return false;
            };
            let span: NodeSpan = collected.stmts[i].span();
            ok = self.check_reads(&deps.reads, span, &bound, &mut missing, ok);
            extend(&mut bound, &deps.captures);
            k += 1;
        }
        let head: NodeId = self.ast.query().head;
        let span: NodeSpan = self.ast.store().span(head);
        self.check_reads(&collected.head_reads, span, &bound, &mut missing, ok)
    }
}

/// Whether two slots name the same place.
fn same_place(a: &Slot, b: &Slot) -> (same: bool)
    ensures
        same == emitting::same_place(*a, *b),
{
    match (a, b) {
        (
            Slot::Field { address: x, path: p, .. },
            Slot::Field { address: y, path: q, .. },
        ) => *x == *y && p.same(q),
        (Slot::Key { address: x, .. }, Slot::Key { address: y, .. }) => *x == *y,
        _ => false,
    }
}

/// Whether some bindings bind a variable.
fn binds(bindings: &Vec<(Symbol, Slot)>, symbol: Symbol) -> (found: bool)
    ensures
        found == emitting::binds(bindings@, symbol),
{
    let mut i: usize = 0;
    while i < bindings.len()
        invariant
            i <= bindings@.len(),
            forall|j: int| 0 <= j < i ==> (#[trigger] bindings@[j]).0 != symbol,
        decreases bindings@.len() - i,
    {
        if bindings[i].0 == symbol {
            assert(bindings@[i as int].0 == symbol);
            return true;
        }
        i += 1;
    }
    false
}

/// The first branch's bindings that another branch makes too.
fn in_both(first: &Vec<(Symbol, Slot)>, branch: &Vec<(Symbol, Slot)>) -> (both: Vec<
    (Symbol, Slot),
>)
    ensures
        both@ == emitting::shared(first@, branch@, first@.len()),
{
    let mut both: Vec<(Symbol, Slot)> = Vec::new();
    let mut k: usize = 0;
    while k < first.len()
        invariant
            k <= first@.len(),
            both@ == emitting::shared(first@, branch@, k as nat),
        decreases first@.len() - k,
    {
        if binds(branch, first[k].0) {
            both.push((first[k].0, first[k].1.clone()));
        }
        k += 1;
    }
    both
}

/// The variables whose constraints have been applied: the first `n`, and of the others
/// those that are bound.
fn still_applied(constrained: &Vec<Symbol>, n: usize, first: &Vec<(Symbol, Slot)>) -> (kept: Vec<
    Symbol,
>)
    ensures
        kept@ == emitting::applied(constrained@, n as nat, first@, constrained@.len()),
{
    let mut kept: Vec<Symbol> = Vec::new();
    let mut k: usize = 0;
    while k < constrained.len()
        invariant
            k <= constrained@.len(),
            kept@ == emitting::applied(constrained@, n as nat, first@, k as nat),
        decreases constrained@.len() - k,
    {
        if k < n || binds(first, constrained[k]) {
            kept.push(constrained[k]);
        }
        k += 1;
    }
    kept
}

// ---- lemmas -----------------------------------------------------------------

proof fn lemma_shared_ok(
    cx: Cx,
    first: Seq<(Symbol, Slot)>,
    branch: Seq<(Symbol, Slot)>,
    k: nat,
)
    requires
        bindings_ok(cx, first),
        k <= first.len(),
    ensures
        bindings_ok(cx, emitting::shared(first, branch, k)),
    decreases k,
{
    if k > 0 {
        lemma_shared_ok(cx, first, branch, (k - 1) as nat);
    }
}

/// Every slot of some bindings is sound.
pub open spec fn bindings_ok(cx: Cx, bindings: Seq<(Symbol, Slot)>) -> bool {
    forall|i: int| 0 <= i < bindings.len() ==> state::slot_ok(cx, (#[trigger] bindings[i]).1)
}

proof fn lemma_ok_take(cx: Cx, st: St, n: int)
    requires
        state::state_ok(cx, st),
        0 <= n <= st.bindings.len(),
    ensures
        state::state_ok(cx, St { bindings: st.bindings.take(n), ..st }),
{
    let after = st.bindings.take(n);
    assert forall|i: int| 0 <= i < after.len() implies state::slot_ok(
        cx,
        (#[trigger] after[i]).1,
    ) by {
        assert(after[i] == st.bindings[i]);
    }
}

proof fn lemma_ok_append(cx: Cx, st: St, more: Seq<(Symbol, Slot)>)
    requires
        state::state_ok(cx, st),
        bindings_ok(cx, more),
    ensures
        state::state_ok(cx, St { bindings: st.bindings + more, ..st }),
{
    let after = st.bindings + more;
    assert forall|i: int| 0 <= i < after.len() implies state::slot_ok(
        cx,
        (#[trigger] after[i]).1,
    ) by {
        if i < st.bindings.len() {
            assert(after[i] == st.bindings[i]);
        } else {
            assert(after[i] == more[i - st.bindings.len()]);
        }
    }
}

proof fn lemma_ok_no_compares(cx: Cx, st: St)
    requires
        state::state_ok(cx, st),
    ensures
        state::state_ok(cx, St { compares: Seq::empty(), ..st }),
{
}

proof fn lemma_ok_no_constraints(cx: Cx, st: St)
    requires
        state::state_ok(cx, st),
    ensures
        state::state_ok(cx, St { constraints: Seq::empty(), ..st }),
{
}

proof fn lemma_scan_fails(
    cx: Cx,
    st: St,
    alts: Seq<Alt>,
    k: nat,
    n: nat,
    address: Address,
    start: nat,
)
    requires
        k <= n,
        !emitting::scan_sources(cx, st, alts, k, address, start).whole,
    ensures
        emitting::scan_sources(cx, st, alts, n, address, start) == emitting::scan_sources(
            cx,
            st,
            alts,
            k,
            address,
            start,
        ),
    decreases n,
{
    if k < n {
        lemma_scan_fails(cx, st, alts, k, (n - 1) as nat, address, start);
    }
}

proof fn lemma_test_fails(cx: Cx, st: St, alts: Seq<Alt>, k: nat, n: nat, address: Address)
    requires
        k <= n,
        !emitting::test_sources(cx, st, alts, k, address).whole,
    ensures
        emitting::test_sources(cx, st, alts, n, address) == emitting::test_sources(
            cx,
            st,
            alts,
            k,
            address,
        ),
    decreases n,
{
    if k < n {
        lemma_test_fails(cx, st, alts, k, (n - 1) as nat, address);
    }
}

proof fn lemma_projected_fields_fail(
    cx: Cx,
    st: St,
    node: NodeId,
    fields: Seq<(Symbol, NodeId)>,
    k: nat,
    n: nat,
)
    requires
        k <= n,
        emitting::projected_fields(cx, st, node, fields, k).1 is None,
    ensures
        emitting::projected_fields(cx, st, node, fields, n) == emitting::projected_fields(
            cx,
            st,
            node,
            fields,
            k,
        ),
    decreases n,
{
    if k < n {
        lemma_projected_fields_fail(cx, st, node, fields, k, (n - 1) as nat);
    }
}

proof fn lemma_emitted_fails(
    cx: Cx,
    st: St,
    stmts: Seq<Stmt>,
    order: Seq<usize>,
    k: nat,
    n: nat,
)
    requires
        k <= n,
        emitting::emitted_stmts(cx, st, stmts, order, k).1 is None,
    ensures
        emitting::emitted_stmts(cx, st, stmts, order, n) == emitting::emitted_stmts(
            cx,
            st,
            stmts,
            order,
            k,
        ),
    decreases n,
{
    if k < n {
        lemma_emitted_fails(cx, st, stmts, order, k, (n - 1) as nat);
    }
}

proof fn lemma_broken(st: St, gathered: Gathered, order: Seq<usize>, k: nat, n: nat)
    requires
        k <= n,
        emitting::safe_stmts(st, gathered, order, k).broken,
    ensures
        emitting::safe_stmts(st, gathered, order, n) == emitting::safe_stmts(
            st,
            gathered,
            order,
            k,
        ),
    decreases n,
{
    if k < n {
        lemma_broken(st, gathered, order, k, (n - 1) as nat);
    }
}

} // verus!
