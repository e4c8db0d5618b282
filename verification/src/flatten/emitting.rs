//! What emitting a program means: the steps each statement becomes in a given order,
//! the filters added once every level exists, and the head.
use vstd::prelude::*;

use super::collecting;
use super::collecting::Gathered;
use super::model;
use super::model::{
    Alt, Bytes, Compare, Cx, Seek, Slot, St, Stmt, SAY_CAPTURED, SAY_COMPARE_FIELDS,
    SAY_DIFFERENT_FIELD, SAY_NOTHING_BINDS, SAY_PATTERN, SAY_PREFIX_VARIABLE, SAY_QUOTE,
    SAY_SAME_ROW, SAY_VALUE_MATCH_ROW,
};
use crate::boxed;
use crate::bytes;
use crate::diag::{Code, Report};
use crate::iter::Address;
use crate::plan::{Access, FieldPath, Projection, Residual, ResidualOp};
use crate::program;
use crate::program::{Level, Source, Step, Test};
use crate::reorder;
use crate::schema::{NameKey, PredicateId, PredicateTy, Symbol};
use crate::syntax::{ExprKind, Literal, NodeId, NodeSpan};
use crate::tuple::Datum;

verus! {

/// A program body under construction: its steps, and how many of them are levels. A
/// register is the position of the level that fills it, and only a level fills one.
#[verifier::ext_equal]
pub struct Built {
    pub steps: Seq<Step>,
    pub levels: nat,
}

impl Built {
    /// The register the next level fills.
    pub open spec fn next(self) -> Address {
        Address(self.levels as usize)
    }

    pub open spec fn with_level(self, level: Level) -> Built {
        Built { steps: self.steps.push(Step::Level(level)), levels: self.levels + 1 }
    }

    pub open spec fn with_test(self, test: Test) -> Built {
        Built { steps: self.steps.push(Step::Test(test)), ..self }
    }

    /// One more filter on the level that fills `address`, if there is one.
    pub open spec fn filtered(self, address: Address, residual: Residual) -> Built {
        match program::level_position(self.steps, address.0 as nat) {
            Some(at) => Built {
                steps: self.steps.update(
                    at as int,
                    Step::Level(self.steps[at as int]->Level_0.filtered_by(residual)),
                ),
                ..self
            },
            None => self,
        }
    }

    /// The slices that filter takes hold what they are made of.
    pub open spec fn filter_sealed(self, address: Address, residual: Residual) -> bool {
        program::level_position(self.steps, address.0 as nat) matches Some(at)
            ==> self.steps[at as int]->Level_0.filter_sealed(residual)
    }

    /// The count is the levels', and each level fills the register of its position.
    pub open spec fn wf(self) -> bool {
        &&& self.levels == program::level_count(self.steps)
        &&& registers_are_positions(self.steps)
    }
}

/// Each level fills the register of its position among the levels.
pub open spec fn registers_are_positions(steps: Seq<Step>) -> bool {
    forall|i: int|
        0 <= i < steps.len() ==> ((#[trigger] steps[i]) matches Step::Level(level) ==> level.binds@
            == seq![Address(program::level_count(steps.take(i)) as usize)])
}

// ---- following references ---------------------------------------------------

/// Fetch the fact a reference names, unless it was fetched before.
pub open spec fn fetch_level(
    st: St,
    built: Built,
    address: Address,
    path: FieldPath,
    predicate: PredicateId,
) -> (St, Built) {
    if model::fetched_register(st.fetched, address, path) is Some {
        (st, built)
    } else {
        (
            St { fetched: st.fetched.push((address, path, built.next())), ..st }.sealing(
                Level::fetching_sealed(address, path, predicate, built.next()),
            ),
            built.with_level(Level::fetching(address, path, predicate, built.next())),
        )
    }
}

/// Fetch for every reference a node reads through, innermost first.
pub open spec fn fetch_within(cx: Cx, st: St, built: Built, node: NodeId) -> (St, Built)
    decreases node.0, 1nat, 0nat,
{
    match cx.ast.kind(node) {
        ExprKind::Record(fields) => fetch_fields(cx, st, built, node, fields@, fields@.len()),
        ExprKind::Access(_, base) => fetch_base(cx, st, built, node, base),
        ExprKind::Select(_, base) => fetch_base(cx, st, built, node, base),
        _ => (st, built),
    }
}

/// What an access needs of its base: whatever that reads through, and the fact it is a
/// reference to.
pub open spec fn fetch_base(cx: Cx, st: St, built: Built, node: NodeId, base: NodeId) -> (
    St,
    Built,
)
    decreases node.0, 0nat, 0nat,
{
    if base.0 < node.0 {
        let (s1, b1) = fetch_within(cx, st, built, base);
        let (s2, found) = model::resolve(cx, s1, base);
        match found {
            Some(Slot::Field { address, path, ty: PredicateTy::Fact(predicate) }) => fetch_level(
                s2,
                b1,
                address,
                path,
                predicate,
            ),
            _ => (s2, b1),
        }
    } else {
        (st, built)
    }
}

/// The first `k` fields.
pub open spec fn fetch_fields(
    cx: Cx,
    st: St,
    built: Built,
    node: NodeId,
    fields: Seq<(Symbol, NodeId)>,
    k: nat,
) -> (St, Built)
    decreases node.0, 0nat, k,
{
    if k == 0 {
        (st, built)
    } else {
        let (s1, b1) = fetch_fields(cx, st, built, node, fields, (k - 1) as nat);
        if fields[k - 1].1.0 < node.0 {
            fetch_within(cx, s1, b1, fields[k - 1].1)
        } else {
            (s1, b1)
        }
    }
}

/// The keys of the first `k` alternatives.
pub open spec fn fetch_alts(cx: Cx, st: St, built: Built, alts: Seq<Alt>, k: nat) -> (St, Built)
    decreases k,
{
    if k == 0 {
        (st, built)
    } else {
        let (s1, b1) = fetch_alts(cx, st, built, alts, (k - 1) as nat);
        fetch_within(cx, s1, b1, alts[k - 1].key)
    }
}

// ---- levels and tests -------------------------------------------------------

/// The source an alternative becomes.
pub open spec fn source_of(alt: Alt, seek: Seek) -> Source {
    Source::Seek {
        access: Access { predicate_id: alt.predicate, seek_key: seek.key() },
        residuals: boxed::boxed(seek.residuals),
    }
}

/// The first binding of a variable.
pub open spec fn first_slot(bindings: Seq<(Symbol, Slot)>, symbol: Symbol, i: nat) -> Option<Slot>
    decreases bindings.len() - i,
{
    if i >= bindings.len() {
        None
    } else if bindings[i as int].0 == symbol {
        Some(bindings[i as int].1)
    } else {
        first_slot(bindings, symbol, i + 1)
    }
}

/// Whether some bindings bind a variable.
pub open spec fn binds(bindings: Seq<(Symbol, Slot)>, symbol: Symbol) -> bool {
    exists|j: int| 0 <= j < bindings.len() && (#[trigger] bindings[j]).0 == symbol
}

/// Those of the first `k` bindings that another branch makes too.
pub open spec fn shared(
    first: Seq<(Symbol, Slot)>,
    branch: Seq<(Symbol, Slot)>,
    k: nat,
) -> Seq<(Symbol, Slot)>
    decreases k,
{
    if k == 0 {
        Seq::empty()
    } else {
        let before = shared(first, branch, (k - 1) as nat);
        if binds(branch, first[k - 1].0) {
            before.push(first[k - 1])
        } else {
            before
        }
    }
}

/// Of the first `k` variables whose constraints have been applied, the first `n`, and of
/// the others those that are bound: a branch may have applied one to a variable of its own.
pub open spec fn applied(
    constrained: Seq<Symbol>,
    n: nat,
    first: Seq<(Symbol, Slot)>,
    k: nat,
) -> Seq<Symbol>
    decreases k,
{
    if k == 0 {
        Seq::empty()
    } else {
        let before = applied(constrained, n, first, (k - 1) as nat);
        if k <= n || binds(first, constrained[k - 1]) {
            before.push(constrained[k - 1])
        } else {
            before
        }
    }
}

/// Two slots that name the same place.
pub open spec fn same_place(a: Slot, b: Slot) -> bool {
    match (a, b) {
        (
            Slot::Field { address: x, path: p, .. },
            Slot::Field { address: y, path: q, .. },
        ) => x == y && p == q,
        (Slot::Key { address: x, .. }, Slot::Key { address: y, .. }) => x == y,
        _ => false,
    }
}

/// Check the first `k` bindings of a later branch against the first branch's: a
/// variable both bind has to be in the same place.
pub open spec fn reconciled(
    cx: Cx,
    st: St,
    at: NodeId,
    first: Seq<(Symbol, Slot)>,
    branch: Seq<(Symbol, Slot)>,
    k: nat,
) -> St
    decreases k,
{
    if k == 0 {
        st
    } else {
        let s1 = reconciled(cx, st, at, first, branch, (k - 1) as nat);
        let (symbol, slot) = branch[k - 1];
        match first_slot(first, symbol, 0) {
            Some(bound) => if same_place(bound, slot) {
                s1
            } else {
                model::report(
                    cx,
                    s1,
                    at,
                    Code::NyiDisjunction,
                    SAY_QUOTE@ + s1.names.shown(symbol) + SAY_DIFFERENT_FIELD@,
                )
            },
            None => s1,
        }
    }
}

/// The first `k` alternatives of a scan: the bindings all of them make, as the first makes
/// them, the sources they become, and whether every predicate was declared.
#[verifier::ext_equal]
pub struct Sources {
    pub st: St,
    pub first: Seq<(Symbol, Slot)>,
    pub sources: Seq<Source>,
    pub whole: bool,
}

/// Every branch is walked in the same environment: the first `start` bindings.
pub open spec fn scan_sources(
    cx: Cx,
    st: St,
    alts: Seq<Alt>,
    k: nat,
    address: Address,
    start: nat,
) -> Sources
    decreases k,
{
    if k == 0 {
        Sources { st, first: Seq::empty(), sources: Seq::empty(), whole: true }
    } else {
        let before = scan_sources(cx, st, alts, (k - 1) as nat, address, start);
        let alt = alts[k - 1];
        match cx.schema.predicate(alt.predicate) {
            Some(declared) => if before.whole {
                let (walked, seek) = model::key(
                    cx,
                    before.st,
                    alt.key,
                    declared.key,
                    address,
                    Seek::empty(),
                );
                let branch = walked.bindings.skip(start as int);
                let restored = St {
                    bindings: walked.bindings.take(start as int),
                    ..walked.sealing(seek.sealed())
                };
                Sources {
                    st: if k == 1 {
                        restored
                    } else {
                        reconciled(cx, restored, alt.key, before.first, branch, branch.len())
                    },
                    first: if k == 1 {
                        branch
                    } else {
                        shared(before.first, branch, before.first.len())
                    },
                    sources: before.sources.push(source_of(alt, seek)),
                    whole: true,
                }
            } else {
                before
            },
            None => Sources { whole: false, ..before },
        }
    }
}

/// The first `k` alternatives of a negation.
pub open spec fn test_sources(cx: Cx, st: St, alts: Seq<Alt>, k: nat, address: Address) -> Sources
    decreases k,
{
    if k == 0 {
        Sources { st, first: Seq::empty(), sources: Seq::empty(), whole: true }
    } else {
        let before = test_sources(cx, st, alts, (k - 1) as nat, address);
        let alt = alts[k - 1];
        match cx.schema.predicate(alt.predicate) {
            Some(declared) => if before.whole {
                let (walked, seek) = model::key(
                    cx,
                    before.st,
                    alt.key,
                    declared.key,
                    address,
                    Seek::empty(),
                );
                Sources {
                    st: walked.sealing(seek.sealed()),
                    sources: before.sources.push(source_of(alt, seek)),
                    ..before
                }
            } else {
                before
            },
            None => Sources { whole: false, ..before },
        }
    }
}

/// The slices of a level hold what they are made of.
pub open spec fn level_sealed(sources: Seq<Source>, address: Address) -> bool {
    &&& boxed::boxed(sources)@ == sources
    &&& boxed::boxed(seq![address])@ == seq![address]
}

/// The state and the body after one filter more.
pub open spec fn filtering(
    st: St,
    built: Built,
    address: Address,
    residual: Residual,
) -> (St, Built) {
    (
        st.sealing(built.filter_sealed(address, residual)),
        built.filtered(address, residual),
    )
}

/// What one statement becomes. `None` where it names a predicate the schema lacks.
pub open spec fn emitted_stmt(cx: Cx, st: St, built: Built, stmt: Stmt) -> (St, Option<Built>) {
    match stmt {
        Stmt::Scan(scan) => {
            let alts = scan.alternatives@;
            let (s1, b1) = fetch_alts(cx, st, built, alts, alts.len());
            let address = b1.next();
            let made = scan_sources(cx, s1, alts, alts.len(), address, s1.bindings.len());
            if !made.whole {
                (made.st, None)
            } else {
                let s2 = St {
                    bindings: made.st.bindings + made.first,
                    constrained: applied(
                        made.st.constrained,
                        s1.constrained.len(),
                        made.first,
                        made.st.constrained.len(),
                    ),
                    ..made.st
                };
                let s3 = match scan.row {
                    Some(row) => s2.binding(
                        row,
                        Slot::Row {
                            address,
                            predicate: if alts.len() > 0 {
                                Some(alts[0].predicate)
                            } else {
                                None
                            },
                        },
                    ),
                    None => s2,
                };
                (
                    s3.sealing(level_sealed(made.sources, address)),
                    Some(
                        b1.with_level(
                            Level {
                                sources: boxed::boxed(made.sources),
                                binds: boxed::boxed(seq![address]),
                            },
                        ),
                    ),
                )
            }
        },
        Stmt::Alias(alias) => {
            let (s1, b1) = fetch_within(cx, st, built, alias.value);
            let (s2, b2) = fetch_within(cx, s1, b1, alias.pattern);
            let (s3, found) = model::resolve(cx, s2, alias.value);
            match found {
                Some(slot) => (model::bind_pattern(cx, s3, alias.pattern, slot), Some(b2)),
                None => (s3, Some(b2)),
            }
        },
        Stmt::Negate(tested) => {
            let alts = tested.alternatives@;
            let made = test_sources(cx, st, alts, alts.len(), built.next());
            if !made.whole {
                (made.st, None)
            } else {
                (
                    St {
                        bindings: made.st.bindings.take(st.bindings.len() as int),
                        ..made.st.sealing(boxed::boxed(made.sources)@ == made.sources)
                    },
                    Some(built.with_test(Test::Absent(boxed::boxed(made.sources)))),
                )
            }
        },
        Stmt::Constrain(_) => (st, Some(built)),
    }
}

/// The first `k` statements of an order.
pub open spec fn emitted_stmts(
    cx: Cx,
    st: St,
    stmts: Seq<Stmt>,
    order: Seq<usize>,
    k: nat,
) -> (St, Option<Built>)
    decreases k,
{
    if k == 0 {
        (st, Some(Built { steps: Seq::empty(), levels: 0 }))
    } else {
        let (s1, before) = emitted_stmts(cx, st, stmts, order, (k - 1) as nat);
        match before {
            Some(built) => if order[k - 1] < stmts.len() {
                emitted_stmt(cx, s1, built, stmts[order[k - 1] as int])
            } else {
                (s1, None)
            },
            None => (s1, None),
        }
    }
}

// ---- what is added once every level exists ----------------------------------

/// A compare is a filter on whichever of the two levels is inner.
pub open spec fn compared(cx: Cx, st: St, built: Built, compare: Compare) -> (St, Built) {
    match (compare.left, compare.right) {
        (
            Slot::Field { address: left, path: left_path, .. },
            Slot::Field { address: right, path: right_path, .. },
        ) => if left == right {
            (
                model::report(cx, st, compare.at, Code::NyiRepeatedVariable, SAY_SAME_ROW@),
                built,
            )
        } else if left.0 > right.0 {
            filtering(
                st,
                built,
                left,
                Residual {
                    path: left_path,
                    op: ResidualOp::EqRegisterField { address: right, path: right_path },
                },
            )
        } else {
            filtering(
                st,
                built,
                right,
                Residual {
                    path: right_path,
                    op: ResidualOp::EqRegisterField { address: left, path: left_path },
                },
            )
        },
        _ => (
            model::report(cx, st, compare.at, Code::NyiBindUnification, SAY_COMPARE_FIELDS@),
            built,
        ),
    }
}

/// The first `k` compares.
pub open spec fn compared_all(cx: Cx, st: St, built: Built, compares: Seq<Compare>, k: nat) -> (
    St,
    Built,
)
    decreases k,
{
    if k == 0 {
        (st, built)
    } else {
        let (s1, b1) = compared_all(cx, st, built, compares, (k - 1) as nat);
        compared(cx, s1, b1, compares[k - 1])
    }
}

/// The report that nothing binds a variable.
pub open spec fn unbound(st: St, symbol: Symbol, span: NodeSpan) -> St {
    st.reporting(
        Report {
            code: Code::RejectUnboundVariable,
            message: SAY_NOTHING_BINDS@ + st.names.shown(symbol) + SAY_CAPTURED@,
            span,
        },
    )
}

/// A constraint no capture applied: a filter on the row its variable is a field of; or
/// the whole query's answer, where its variable is a constant.
pub open spec fn constrained(cx: Cx, st: St, built: Built, symbol: Symbol, pattern: NodeId) -> (
    St,
    Built,
) {
    if st.constrained.contains(symbol) {
        (st, built)
    } else {
        match model::lookup(st.bindings, symbol) {
            Some(Slot::Field { address, path, ty }) => match model::constant(cx, st, pattern, ty) {
                Some(Bytes::Whole(found)) => filtering(
                    st.sealing(boxed::boxed(found)@ == found),
                    built,
                    address,
                    Residual { path, op: ResidualOp::Prefix(boxed::boxed(found)) },
                ),
                Some(Bytes::Prefix(found)) => filtering(
                    st.sealing(boxed::boxed(found)@ == found),
                    built,
                    address,
                    Residual { path, op: ResidualOp::Prefix(boxed::boxed(found)) },
                ),
                None => (
                    model::report(
                        cx,
                        st,
                        pattern,
                        Code::RejectTypeMismatch,
                        SAY_PREFIX_VARIABLE@,
                    ),
                    built,
                ),
            },
            Some(Slot::Const(folded)) => match (
                model::constant(cx, st, folded, PredicateTy::Str),
                model::constant(cx, st, pattern, PredicateTy::Str),
            ) {
                (Some(Bytes::Whole(value)), Some(Bytes::Prefix(prefix))) => if bytes::begins_with(
                    value,
                    prefix,
                ) {
                    (st, built)
                } else {
                    (
                        st.sealing(level_sealed(Seq::empty(), built.next())),
                        built.with_level(
                            Level {
                                sources: boxed::boxed(Seq::empty()),
                                binds: boxed::boxed(seq![built.next()]),
                            },
                        ),
                    )
                },
                _ => (
                    model::report(
                        cx,
                        st,
                        pattern,
                        Code::RejectTypeMismatch,
                        SAY_PREFIX_VARIABLE@,
                    ),
                    built,
                ),
            },
            Some(Slot::Value { .. }) => (
                model::report(cx, st, pattern, Code::NyiValueMatch, SAY_VALUE_MATCH_ROW@),
                built,
            ),
            Some(_) => (
                model::report(cx, st, pattern, Code::NyiBindUnification, SAY_PATTERN@),
                built,
            ),
            None => (unbound(st, symbol, cx.ast.span(pattern)), built),
        }
    }
}

/// The first `k` constraints.
pub open spec fn constrained_all(
    cx: Cx,
    st: St,
    built: Built,
    constraints: Seq<(Symbol, NodeId)>,
    k: nat,
) -> (St, Built)
    decreases k,
{
    if k == 0 {
        (st, built)
    } else {
        let (s1, b1) = constrained_all(cx, st, built, constraints, (k - 1) as nat);
        constrained(cx, s1, b1, constraints[k - 1].0, constraints[k - 1].1)
    }
}

// ---- the head ---------------------------------------------------------------

/// A whole key as the record it is: one projection per field.
pub open spec fn key_record(
    address: Address,
    tys: Seq<(NameKey, PredicateTy)>,
) -> Seq<(Symbol, Projection)> {
    Seq::new(
        tys.len(),
        |i: int|
            (
                Symbol::Schema(tys[i].0),
                Projection::RegisterField {
                    address,
                    path: FieldPath::of(i as usize, Seq::empty()),
                    ty: tys[i].1,
                },
            ),
    )
}

/// The paths of that record have no steps, as they were made.
pub open spec fn key_record_sealed(ty: PredicateTy) -> bool {
    ty matches PredicateTy::Record(tys) ==> forall|i: int|
        0 <= i < tys@.len() ==> #[trigger] FieldPath::sealed(i as usize, Seq::empty())
}

/// The head as a projection.
pub open spec fn projected(cx: Cx, st: St, node: NodeId) -> (St, Option<Projection>)
    decreases model::rank(cx, node), node.0, 1nat, 0nat,
{
    match cx.ast.kind(node) {
        ExprKind::Lit(Literal::Int(value)) => (st, Some(Projection::Lit(Datum::Int(value)))),
        ExprKind::Lit(Literal::Str(symbol)) => (
            st,
            match st.names.text(symbol) {
                Some(text) => Some(Projection::Lit(Datum::Str(text))),
                None => None,
            },
        ),
        ExprKind::Record(fields) => {
            let (after, found) = projected_fields(cx, st, node, fields@, fields@.len());
            match found {
                Some(inner) => (after, Some(Projection::Record(inner))),
                None => (after, None),
            }
        },
        kind => if kind is Var || kind is Access || kind is Fact {
            let (s1, found) = model::resolve(cx, st, node);
            match found {
                Some(Slot::Row { address, .. }) => (s1, Some(Projection::FactRef(address))),
                Some(Slot::Key { address, ty }) => (
                    s1.sealing(key_record_sealed(ty)),
                    match ty {
                        PredicateTy::Record(tys) => Some(
                            Projection::Record(key_record(address, tys@)),
                        ),
                        _ => None,
                    },
                ),
                Some(Slot::Field { address, path, ty }) => (
                    s1,
                    Some(Projection::RegisterField { address, path, ty }),
                ),
                Some(Slot::Value { address, ty }) => (
                    s1,
                    Some(Projection::Value { address, ty }),
                ),
                Some(Slot::Const(folded)) => if cx.ast.constant(folded) {
                    projected(cx, s1, folded)
                } else {
                    (s1, None)
                },
                None => (s1, None),
            }
        } else {
            (st, None)
        },
    }
}

/// The first `k` fields of a record head; the first that has no projection ends it.
pub open spec fn projected_fields(
    cx: Cx,
    st: St,
    node: NodeId,
    fields: Seq<(Symbol, NodeId)>,
    k: nat,
) -> (St, Option<Seq<(Symbol, Projection)>>)
    decreases model::rank(cx, node), node.0, 0nat, k,
{
    if k == 0 {
        (st, Some(Seq::empty()))
    } else {
        let (s1, before) = projected_fields(cx, st, node, fields, (k - 1) as nat);
        match before {
            Some(inner) => if model::below(cx, node, fields[k - 1].1) {
                let (s2, found) = projected(cx, s1, fields[k - 1].1);
                match found {
                    Some(one) => (s2, Some(inner.push((fields[k - 1].0, one)))),
                    None => (s2, None),
                }
            } else {
                (s1, None)
            },
            None => (s1, None),
        }
    }
}

// ---- all of it --------------------------------------------------------------

/// A compiled query.
#[verifier::ext_equal]
pub struct Compiled {
    pub nvars: nat,
    pub body: Seq<Step>,
    pub head: Projection,
}

/// Everything emitted after the statements and before the head: what the head reads
/// through, the compares, and the constraints no capture applied.
pub open spec fn before_the_head(cx: Cx, st: St, built: Built) -> (St, Built) {
    let (s2, b2) = fetch_within(cx, st, built, cx.ast.root().head);
    let (s3, b3) = compared_all(
        cx,
        St { compares: Seq::empty(), ..s2 },
        b2,
        s2.compares,
        s2.compares.len(),
    );
    constrained_all(
        cx,
        St { constraints: Seq::empty(), ..s3 },
        b3,
        s3.constraints,
        s3.constraints.len(),
    )
}

/// Emit the statements in an order, then what is left, then the head. `None` where
/// anything was reported.
pub open spec fn emitted(cx: Cx, st: St, stmts: Seq<Stmt>, order: Seq<usize>) -> (
    St,
    Option<Compiled>,
) {
    let (s1, after) = emitted_stmts(cx, st, stmts, order, order.len());
    match after {
        None => (s1, None),
        Some(b1) => {
            let (s4, b4) = before_the_head(cx, s1, b1);
            let (s5, found) = projected(cx, s4, cx.ast.root().head);
            match found {
                Some(projection) => if s5.reports.len() == st.reports.len() {
                    (
                        s5,
                        Some(
                            Compiled { nvars: b4.levels, body: b4.steps, head: projection },
                        ),
                    )
                } else {
                    (s5, None)
                },
                None => (s5, None),
            }
        },
    }
}

/// How far the safety check has come: what is bound, what was found missing, and
/// whether anything was; `broken` if the order names a statement there is not.
#[verifier::ext_equal]
pub struct Safety {
    pub st: St,
    pub bound: Seq<Symbol>,
    pub missing: Seq<Symbol>,
    pub safe: bool,
    pub broken: bool,
}

/// Check the first `k` of `reads`: one variable, one diagnostic.
pub open spec fn check_reads(before: Safety, reads: Seq<Symbol>, k: nat, span: NodeSpan) -> Safety
    decreases k,
{
    if k == 0 {
        before
    } else {
        let s = check_reads(before, reads, (k - 1) as nat, span);
        let read = reads[k - 1];
        if s.bound.contains(read) || s.missing.contains(read) {
            s
        } else {
            Safety {
                st: unbound(s.st, read, span),
                missing: s.missing.push(read),
                safe: false,
                ..s
            }
        }
    }
}

/// The first `k` statements of an order: every variable one reads must have been
/// captured by then. A folded constant is bound before any level runs.
pub open spec fn safe_stmts(st: St, gathered: Gathered, order: Seq<usize>, k: nat) -> Safety
    decreases k,
{
    if k == 0 {
        Safety {
            st,
            bound: collecting::folded(st.bindings, st.bindings.len()),
            missing: Seq::empty(),
            safe: true,
            broken: false,
        }
    } else {
        let before = safe_stmts(st, gathered, order, (k - 1) as nat);
        let i = order[k - 1];
        if before.broken {
            before
        } else if i < gathered.stmts.len() && i < gathered.deps.len() {
            let deps = gathered.deps[i as int];
            let checked = check_reads(
                before,
                deps.reads@,
                deps.reads@.len(),
                gathered.stmts[i as int].at(),
            );
            Safety { bound: checked.bound + deps.captures@, ..checked }
        } else {
            Safety { safe: false, broken: true, ..before }
        }
    }
}

/// Range restriction over an order: the statements, then the head.
pub open spec fn safety(cx: Cx, st: St, gathered: Gathered, order: Seq<usize>) -> Safety {
    let checked = safe_stmts(st, gathered, order, order.len());
    if checked.broken {
        checked
    } else {
        check_reads(
            checked,
            gathered.head_reads,
            gathered.head_reads.len(),
            cx.ast.span(cx.ast.root().head),
        )
    }
}

/// Collect, choose an order unless one is given, check it, emit.
pub open spec fn flattened(cx: Cx, st: St, given: Option<Seq<usize>>) -> (St, Option<Compiled>) {
    let (s1, found) = collecting::collected(cx, st);
    match found {
        None => (s1, None),
        Some(gathered) => {
            let order = match given {
                Some(order) => order,
                None => reorder::chosen_order(gathered.deps),
            };
            let checked = safety(cx, s1, gathered, order);
            if !checked.safe {
                (checked.st, None)
            } else {
                emitted(cx, checked.st, gathered.stmts, order)
            }
        },
    }
}

} // verus!
