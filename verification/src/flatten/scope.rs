//! What flattening keeps: reports are only ever added, and a place always names a
//! register an outer level has filled.
use vstd::prelude::*;

use super::collecting;
use super::collecting::{Claimed, Occurs};
use super::emitting;
use super::emitting::Built;
use super::model;
use super::model::{Alt, Bytes, Compare, Cx, Seek, Slot, St, Stmt};
use crate::boxed;
use crate::diag::{Code, Report};
use crate::iter::Address;
use crate::plan::{FieldPath, ResidualOp, SeekKeyPart};
use crate::program;
use crate::program::{Level, Source, Test};
use crate::reorder::StmtDeps;
use crate::schema::{NameKey, PredicateId, PredicateTy, Symbol};
use crate::syntax::{ExprKind, FieldRef, NodeId, NodeSpan, QueryStmt};

verus! {

// ---- reports ----------------------------------------------------------------

/// Reports are only added: the later state's begin with the earlier's. Where the later
/// one's slices hold what they are made of, so do the earlier one's.
pub open spec fn grows(a: St, b: St) -> bool {
    &&& a.reports.len() <= b.reports.len()
    &&& b.reports.take(a.reports.len() as int) == a.reports
    &&& b.sealed ==> a.sealed
}

/// No fewer reports, and no more slices that hold what they are made of.
pub open spec fn further(a: St, b: St) -> bool {
    &&& a.reports.len() <= b.reports.len()
    &&& b.sealed ==> a.sealed
}

/// Nothing was reported on the way, and every slice holds what it was made of.
pub open spec fn clean(a: St, b: St) -> bool {
    &&& b.reports.len() == a.reports.len()
    &&& b.sealed
}

pub proof fn lemma_grows_refl(a: St)
    ensures
        grows(a, a),
{
    assert(a.reports.take(a.reports.len() as int) =~= a.reports);
}

pub proof fn lemma_grows(a: St, b: St, c: St)
    requires
        grows(a, b),
        grows(b, c),
    ensures
        grows(a, c),
{
    assert(c.reports.take(a.reports.len() as int) =~= c.reports.take(
        b.reports.len() as int,
    ).take(a.reports.len() as int));
}

pub proof fn lemma_reporting(a: St, report: Report)
    ensures
        grows(a, a.reporting(report)),
        a.reporting(report).reports.len() == a.reports.len() + 1,
{
    assert(a.reporting(report).reports.take(a.reports.len() as int) =~= a.reports);
}

pub proof fn lemma_report(cx: Cx, a: St, node: NodeId, code: Code, message: Seq<char>)
    ensures
        grows(a, model::report(cx, a, node, code, message)),
{
    lemma_reporting(a, Report { code, message, span: cx.ast.span(node) });
}

pub proof fn lemma_unbound(a: St, symbol: Symbol, span: NodeSpan)
    ensures
        grows(a, emitting::unbound(a, symbol, span)),
{
    lemma_reporting(
        a,
        Report {
            code: Code::RejectUnboundVariable,
            message: model::SAY_NOTHING_BINDS@ + a.names.shown(symbol) + model::SAY_CAPTURED@,
            span,
        },
    );
}

/// As many reports as before are the same reports.
pub proof fn lemma_no_reports(a: St, b: St)
    requires
        grows(a, b),
        b.reports.len() == a.reports.len(),
    ensures
        b.reports == a.reports,
{
    assert(b.reports.take(a.reports.len() as int) =~= b.reports);
}

// ---- places -----------------------------------------------------------------

/// A row is in a register below `rows`, and a place inside a key in one below `fields`.
pub open spec fn slot_in(slot: Slot, rows: nat, fields: nat) -> bool {
    match slot {
        Slot::Row { address, .. } => address.0 < rows,
        Slot::Value { address, .. } => address.0 < rows,
        Slot::Key { address, .. } => address.0 < fields,
        Slot::Field { address, .. } => address.0 < fields,
        Slot::Const(_) => true,
    }
}

pub open spec fn bindings_in(bindings: Seq<(Symbol, Slot)>, rows: nat, fields: nat) -> bool {
    forall|i: int| 0 <= i < bindings.len() ==> slot_in((#[trigger] bindings[i]).1, rows, fields)
}

pub open spec fn compares_in(compares: Seq<Compare>, rows: nat, fields: nat) -> bool {
    forall|i: int|
        0 <= i < compares.len() ==> slot_in((#[trigger] compares[i]).left, rows, fields) && slot_in(
            compares[i].right,
            rows,
            fields,
        )
}

pub open spec fn fetched_in(fetched: Seq<(Address, FieldPath, Address)>, rows: nat) -> bool {
    forall|i: int| 0 <= i < fetched.len() ==> (#[trigger] fetched[i]).2.0 < rows
}

/// Every place the state names is in a register below `n`.
pub open spec fn within(st: St, n: nat) -> bool {
    &&& bindings_in(st.bindings, n, n)
    &&& compares_in(st.compares, n, n)
    &&& fetched_in(st.fetched, n)
}

pub proof fn lemma_slot_in(slot: Slot, rows: nat, fields: nat, more_rows: nat, more_fields: nat)
    requires
        slot_in(slot, rows, fields),
        rows <= more_rows,
        fields <= more_fields,
    ensures
        slot_in(slot, more_rows, more_fields),
{
}

pub proof fn lemma_within(st: St, n: nat, m: nat)
    requires
        within(st, n),
        n <= m,
    ensures
        within(st, m),
{
    assert forall|i: int| 0 <= i < st.bindings.len() implies slot_in(
        (#[trigger] st.bindings[i]).1,
        m,
        m,
    ) by {
        lemma_slot_in(st.bindings[i].1, n, n, m, m);
    }
    assert forall|i: int| 0 <= i < st.compares.len() implies slot_in(
        (#[trigger] st.compares[i]).left,
        m,
        m,
    ) && slot_in(st.compares[i].right, m, m) by {
        lemma_slot_in(st.compares[i].left, n, n, m, m);
        lemma_slot_in(st.compares[i].right, n, n, m, m);
    }
}

pub proof fn lemma_lookup_in(
    bindings: Seq<(Symbol, Slot)>,
    symbol: Symbol,
    rows: nat,
    fields: nat,
)
    requires
        bindings_in(bindings, rows, fields),
    ensures
        model::lookup(bindings, symbol) matches Some(slot) ==> slot_in(slot, rows, fields),
    decreases bindings.len(),
{
    if bindings.len() > 0 {
        let before = bindings.drop_last();
        assert forall|i: int| 0 <= i < before.len() implies slot_in(
            (#[trigger] before[i]).1,
            rows,
            fields,
        ) by {
            assert(before[i] == bindings[i]);
        }
        assert(slot_in(bindings[bindings.len() - 1].1, rows, fields));
        lemma_lookup_in(before, symbol, rows, fields);
    }
}

pub proof fn lemma_push_in(
    bindings: Seq<(Symbol, Slot)>,
    symbol: Symbol,
    slot: Slot,
    rows: nat,
    fields: nat,
)
    requires
        bindings_in(bindings, rows, fields),
        slot_in(slot, rows, fields),
    ensures
        bindings_in(bindings.push((symbol, slot)), rows, fields),
{
    let after = bindings.push((symbol, slot));
    assert forall|i: int| 0 <= i < after.len() implies slot_in(
        (#[trigger] after[i]).1,
        rows,
        fields,
    ) by {
        if i < bindings.len() {
            assert(after[i] == bindings[i]);
        }
    }
}

pub proof fn lemma_fetched_in(
    fetched: Seq<(Address, FieldPath, Address)>,
    address: Address,
    path: FieldPath,
    rows: nat,
)
    requires
        fetched_in(fetched, rows),
    ensures
        model::fetched_register(fetched, address, path) matches Some(register) ==> register.0
            < rows,
    decreases fetched.len(),
{
    if fetched.len() > 0 {
        let before = fetched.drop_last();
        assert forall|i: int| 0 <= i < before.len() implies (#[trigger] before[i]).2.0 < rows by {
            assert(before[i] == fetched[i]);
        }
        assert(fetched[fetched.len() - 1].2.0 < rows);
        lemma_fetched_in(before, address, path, rows);
    }
}

// ---- resolving --------------------------------------------------------------

/// Nothing but reports changed.
pub open spec fn only_reports(a: St, b: St) -> bool {
    &&& grows(a, b)
    &&& b.bindings == a.bindings
    &&& b.compares == a.compares
    &&& b.hoisted == a.hoisted
    &&& b.fetched == a.fetched
    &&& b.constraints == a.constraints
    &&& b.constrained == a.constrained
    &&& b.names == a.names
}

pub proof fn lemma_dereference_in(
    cx: Cx,
    st: St,
    node: NodeId,
    slot: Slot,
    rows: nat,
    fields: nat,
)
    requires
        slot_in(slot, rows, fields),
        fetched_in(st.fetched, rows),
    ensures
        only_reports(st, model::dereference(cx, st, node, slot).0),
        model::dereference(cx, st, node, slot).1 matches Some(found) ==> slot_in(
            found,
            rows,
            fields,
        ),
{
    lemma_grows_refl(st);
    match slot {
        Slot::Field { address, path, ty: PredicateTy::Fact(predicate) } => {
            lemma_fetched_in(st.fetched, address, path, rows);
            lemma_reporting(
                st,
                Report {
                    code: Code::NyiFactField,
                    message: model::SAY_FETCH_POSITION@,
                    span: cx.ast.span(node),
                },
            );
        },
        Slot::Value { ty: PredicateTy::Fact(_), .. } => {
            lemma_reporting(
                st,
                Report {
                    code: Code::NyiFactField,
                    message: model::SAY_FETCH_VALUE@,
                    span: cx.ast.span(node),
                },
            );
        },
        _ => {},
    }
}

pub proof fn lemma_field_slot_in(
    cx: Cx,
    st: St,
    node: NodeId,
    slot: Slot,
    name: Symbol,
    rows: nat,
    fields: nat,
)
    requires
        slot_in(slot, rows, fields),
        fetched_in(st.fetched, rows),
        rows <= fields,
    ensures
        only_reports(st, model::field_slot(cx, st, node, slot, name).0),
        model::field_slot(cx, st, node, slot, name).1 matches Some(found) ==> slot_in(
            found,
            rows,
            fields,
        ),
{
    lemma_grows_refl(st);
    lemma_dereference_in(cx, st, node, slot, rows, fields);
}

pub proof fn lemma_resolve_in(cx: Cx, st: St, node: NodeId, rows: nat, fields: nat)
    requires
        bindings_in(st.bindings, rows, fields),
        fetched_in(st.fetched, rows),
        rows <= fields,
    ensures
        only_reports(st, model::resolve(cx, st, node).0),
        model::resolve(cx, st, node).1 matches Some(found) ==> slot_in(found, rows, fields),
    decreases node.0,
{
    lemma_grows_refl(st);
    if !cx.ast.constant(node) {
        match cx.ast.kind(node) {
            ExprKind::Var(symbol) => {
                lemma_lookup_in(st.bindings, symbol, rows, fields);
            },
            ExprKind::Fact(_, _) => {
                if let Some(row) = model::hoisted_row(st.hoisted, node) {
                    lemma_lookup_in(st.bindings, row, rows, fields);
                }
            },
            ExprKind::Access(field, base) => {
                if base.0 < node.0 {
                    lemma_resolve_in(cx, st, base, rows, fields);
                    let (s1, found) = model::resolve(cx, st, base);
                    if let Some(slot) = found {
                        lemma_dereference_in(cx, s1, node, slot, rows, fields);
                        let (s2, place) = model::dereference(cx, s1, node, slot);
                        lemma_grows(st, s1, s2);
                        if let FieldRef::Key(name) = field {
                            if let Some(inner) = place {
                                lemma_field_slot_in(cx, s2, node, inner, name, rows, fields);
                                lemma_grows(
                                    st,
                                    s2,
                                    model::field_slot(cx, s2, node, inner, name).0,
                                );
                            }
                        }
                    }
                }
            },
            _ => {},
        }
    }
}

// ---- binding ----------------------------------------------------------------

/// What binding keeps: reports grow, references followed stay, and every place is still
/// where it may be.
pub open spec fn binds_in(a: St, b: St, rows: nat, fields: nat) -> bool {
    &&& grows(a, b)
    &&& b.fetched == a.fetched
    &&& bindings_in(b.bindings, rows, fields)
    &&& compares_in(b.compares, rows, fields)
}

pub proof fn lemma_bind_pattern_in(
    cx: Cx,
    st: St,
    pattern: NodeId,
    slot: Slot,
    rows: nat,
    fields: nat,
)
    requires
        bindings_in(st.bindings, rows, fields),
        compares_in(st.compares, rows, fields),
        fetched_in(st.fetched, rows),
        slot_in(slot, rows, fields),
        rows <= fields,
    ensures
        binds_in(st, model::bind_pattern(cx, st, pattern, slot), rows, fields),
    decreases pattern.0, 1nat, 0nat,
{
    lemma_grows_refl(st);
    match cx.ast.kind(pattern) {
        ExprKind::Var(symbol) => {
            lemma_lookup_in(st.bindings, symbol, rows, fields);
            lemma_push_in(st.bindings, symbol, slot, rows, fields);
            if let Some(bound) = model::lookup(st.bindings, symbol) {
                let after = st.compares.push(Compare { left: bound, right: slot, at: pattern });
                assert forall|i: int| 0 <= i < after.len() implies slot_in(
                    (#[trigger] after[i]).left,
                    rows,
                    fields,
                ) && slot_in(after[i].right, rows, fields) by {
                    if i < st.compares.len() {
                        assert(after[i] == st.compares[i]);
                    }
                }
            }
        },
        ExprKind::Wildcard => {},
        ExprKind::Record(pieces) => {
            lemma_bind_pieces_in(
                cx,
                st,
                pattern,
                slot,
                pieces@,
                pieces@.len(),
                rows,
                fields,
            );
        },
        _ => {
            lemma_reporting(
                st,
                Report {
                    code: Code::NyiBindUnification,
                    message: model::SAY_TWO_PATTERNS@,
                    span: cx.ast.span(pattern),
                },
            );
        },
    }
}

proof fn lemma_bind_pieces_in(
    cx: Cx,
    st: St,
    pattern: NodeId,
    slot: Slot,
    pieces: Seq<(Symbol, NodeId)>,
    k: nat,
    rows: nat,
    fields: nat,
)
    requires
        bindings_in(st.bindings, rows, fields),
        compares_in(st.compares, rows, fields),
        fetched_in(st.fetched, rows),
        slot_in(slot, rows, fields),
        rows <= fields,
    ensures
        binds_in(st, model::bind_pieces(cx, st, pattern, slot, pieces, k), rows, fields),
    decreases pattern.0, 0nat, k,
{
    lemma_grows_refl(st);
    if k > 0 {
        lemma_bind_pieces_in(cx, st, pattern, slot, pieces, (k - 1) as nat, rows, fields);
        let s1 = model::bind_pieces(cx, st, pattern, slot, pieces, (k - 1) as nat);
        let (name, piece) = pieces[k - 1];
        lemma_field_slot_in(cx, s1, piece, slot, name, rows, fields);
        let (s2, field) = model::field_slot(cx, s1, piece, slot, name);
        lemma_grows(st, s1, s2);
        match field {
            Some(place) => {
                if piece.0 < pattern.0 {
                    lemma_bind_pattern_in(cx, s2, piece, place, rows, fields);
                    lemma_grows(st, s2, model::bind_pattern(cx, s2, piece, place));
                }
            },
            None => {
                let report = Report {
                    code: Code::RejectTypeMismatch,
                    message: model::SAY_NO_PIECE@,
                    span: cx.ast.span(piece),
                };
                lemma_reporting(s2, report);
                lemma_grows(st, s2, s2.reporting(report));
            },
        }
    }
}

// ---- seeks ------------------------------------------------------------------

pub open spec fn seek_below(seek: Seek, n: nat) -> bool {
    &&& program::parts_below(seek.parts, n)
    &&& program::filters_below(seek.residuals, n)
}

proof fn lemma_narrowed(seek: Seek, part: SeekKeyPart, path: FieldPath, op: ResidualOp, n: nat)
    requires
        seek_below(seek, n),
        program::part_below(part, n),
        program::op_below(op, n),
    ensures
        seek_below(seek.narrowed(part, path, op), n),
{
    let after = seek.narrowed(part, path, op);
    assert forall|i: int| 0 <= i < after.parts.len() implies program::part_below(
        #[trigger] after.parts[i],
        n,
    ) by {
        if i < seek.parts.len() {
            assert(after.parts[i] == seek.parts[i]);
        }
    }
    assert forall|i: int| 0 <= i < after.residuals.len() implies program::op_below(
        (#[trigger] after.residuals[i]).op,
        n,
    ) by {
        if i < seek.residuals.len() {
            assert(after.residuals[i] == seek.residuals[i]);
        }
    }
}

proof fn lemma_narrow_by(constant: Bytes, path: FieldPath, level: Seek, n: nat)
    requires
        seek_below(level, n),
    ensures
        seek_below(model::narrow_by(constant, path, level), n),
{
    match constant {
        Bytes::Whole(bytes) => {
            lemma_narrowed(
                level,
                SeekKeyPart::Bytes(boxed::boxed(bytes)),
                path,
                ResidualOp::EqConst(boxed::boxed(bytes)),
                n,
            );
        },
        Bytes::Prefix(bytes) => {
            lemma_narrowed(
                level,
                SeekKeyPart::Bytes(boxed::boxed(bytes)),
                path,
                ResidualOp::Prefix(boxed::boxed(bytes)),
                n,
            );
        },
    }
}

// ---- walking a key ----------------------------------------------------------

/// What walking a key against register `n` keeps: what was bound stays bound, and what
/// the walk binds is in register `n` or below.
pub open spec fn walks(a: St, b: St, n: nat) -> bool {
    &&& grows(a, b)
    &&& b.fetched == a.fetched
    &&& b.compares == a.compares
    &&& bindings_in(b.bindings, n, n + 1)
    &&& a.bindings.len() <= b.bindings.len()
    &&& b.bindings.take(a.bindings.len() as int) == a.bindings
}

/// What a walk may start from.
pub open spec fn walkable(st: St, n: nat) -> bool {
    &&& bindings_in(st.bindings, n, n + 1)
    &&& fetched_in(st.fetched, n)
}

/// A walk that reported nothing built a seek that reads outer registers only.
pub open spec fn seeks_outward(a: St, b: St, seek: Seek, n: nat) -> bool {
    b.reports.len() == a.reports.len() ==> seek_below(seek, n)
}

pub proof fn lemma_walks_refl(a: St, n: nat)
    requires
        bindings_in(a.bindings, n, n + 1),
    ensures
        walks(a, a, n),
{
    lemma_grows_refl(a);
    assert(a.bindings.take(a.bindings.len() as int) =~= a.bindings);
}

pub proof fn lemma_walks(a: St, b: St, c: St, n: nat)
    requires
        walks(a, b, n),
        walks(b, c, n),
    ensures
        walks(a, c, n),
{
    lemma_grows(a, b, c);
    assert(c.bindings.take(a.bindings.len() as int) =~= c.bindings.take(
        b.bindings.len() as int,
    ).take(a.bindings.len() as int));
}

/// Reporting is a walk.
proof fn lemma_walks_reporting(a: St, report: Report, n: nat)
    requires
        bindings_in(a.bindings, n, n + 1),
    ensures
        walks(a, a.reporting(report), n),
        a.reporting(report).reports.len() == a.reports.len() + 1,
{
    lemma_reporting(a, report);
    assert(a.bindings.take(a.bindings.len() as int) =~= a.bindings);
}

/// Resolving is a walk.
proof fn lemma_walks_resolve(a: St, b: St, n: nat)
    requires
        bindings_in(a.bindings, n, n + 1),
        only_reports(a, b),
    ensures
        walks(a, b, n),
{
    assert(a.bindings.take(a.bindings.len() as int) =~= a.bindings);
}

/// Reporting at a node is a walk.
proof fn lemma_walks_report(cx: Cx, a: St, node: NodeId, code: Code, message: Seq<char>, n: nat)
    requires
        bindings_in(a.bindings, n, n + 1),
    ensures
        walks(a, model::report(cx, a, node, code, message), n),
        model::report(cx, a, node, code, message).reports.len() == a.reports.len() + 1,
{
    lemma_walks_reporting(a, Report { code, message, span: cx.ast.span(node) }, n);
}

proof fn lemma_constrain_in(
    cx: Cx,
    st: St,
    symbol: Symbol,
    ty: PredicateTy,
    path: FieldPath,
    level: Seek,
    n: nat,
    clean: bool,
)
    requires
        walkable(st, n),
        clean ==> seek_below(level, n),
    ensures
        walks(st, model::constrain(cx, st, symbol, ty, path, level).0, n),
        clean ==> seek_below(model::constrain(cx, st, symbol, ty, path, level).1, n),
{
    lemma_walks_refl(st, n);
    let patterns = model::patterns_of(st.constraints, symbol);
    if patterns.len() > 0 {
        let marked = St { constrained: st.constrained.push(symbol), ..st };
        lemma_grows_refl(st);
        assert(walks(st, marked, n));
        lemma_constrain_each_in(cx, marked, patterns, patterns.len(), ty, path, level, n, clean);
        lemma_walks(
            st,
            marked,
            model::constrain_each(cx, marked, patterns, patterns.len(), ty, path, level).0,
            n,
        );
    }
}

proof fn lemma_constrain_each_in(
    cx: Cx,
    st: St,
    patterns: Seq<NodeId>,
    k: nat,
    ty: PredicateTy,
    path: FieldPath,
    level: Seek,
    n: nat,
    clean: bool,
)
    requires
        walkable(st, n),
        clean ==> seek_below(level, n),
    ensures
        walks(st, model::constrain_each(cx, st, patterns, k, ty, path, level).0, n),
        clean ==> seek_below(model::constrain_each(cx, st, patterns, k, ty, path, level).1, n),
    decreases k,
{
    lemma_walks_refl(st, n);
    if k > 0 {
        lemma_constrain_each_in(cx, st, patterns, (k - 1) as nat, ty, path, level, n, clean);
        let (s1, l1) = model::constrain_each(cx, st, patterns, (k - 1) as nat, ty, path, level);
        match model::constant(cx, s1, patterns[k - 1], ty) {
            Some(bytes) => {
                if clean {
                    lemma_narrow_by(bytes, path, l1, n);
                }
            },
            None => {
                let report = Report {
                    code: Code::RejectTypeMismatch,
                    message: model::SAY_PREFIX_VARIABLE@,
                    span: cx.ast.span(patterns[k - 1]),
                };
                lemma_walks_reporting(s1, report, n);
                lemma_walks(st, s1, s1.reporting(report), n);
            },
        }
    }
}

pub proof fn lemma_matched_in(
    cx: Cx,
    st: St,
    node: NodeId,
    slot: Slot,
    ty: PredicateTy,
    address: Address,
    path: FieldPath,
    level: Seek,
    clean: bool,
)
    requires
        walkable(st, address.0 as nat),
        slot_in(slot, address.0 as nat, address.0 as nat + 1),
        clean ==> seek_below(level, address.0 as nat),
    ensures
        ({
            let (after, seek) = model::matched(cx, st, node, slot, ty, address, path, level);
            &&& walks(st, after, address.0 as nat)
            &&& clean ==> seeks_outward(st, after, seek, address.0 as nat)
        }),
    decreases
            0nat,
            (match slot {
                Slot::Const(folded) => folded.0 as nat,
                _ => 0,
            }),
            2nat,
            0nat,
{
    let n = address.0 as nat;
    lemma_walks_refl(st, n);
    lemma_walks_report(cx, st, node, Code::NyiWholeKey, model::SAY_WHOLE_KEY@, n);
    lemma_walks_report(cx, st, node, Code::NyiRepeatedVariable, model::SAY_REPEATED@, n);
    lemma_walks_report(cx, st, node, Code::RejectTypeMismatch, model::SAY_NO_REFERENCE@, n);
    lemma_walks_report(cx, st, node, Code::NyiValueMatch, model::SAY_VALUE_MATCH@, n);
    match slot {
        Slot::Field { address: from, path: at, .. } => {
            if from != address && clean {
                lemma_narrowed(
                    level,
                    SeekKeyPart::RegisterField { address: from, path: at },
                    path,
                    ResidualOp::EqRegisterField { address: from, path: at },
                    n,
                );
            }
        },
        Slot::Row { address: from, predicate } => {
            if clean {
                lemma_narrowed(
                    level,
                    SeekKeyPart::RegisterFactId(from),
                    path,
                    ResidualOp::EqRegisterFactId(from),
                    n,
                );
            }
        },
        Slot::Const(folded) => {
            match model::constant(cx, st, folded, ty) {
                Some(bytes) => {
                    if clean {
                        lemma_narrow_by(bytes, path, level, n);
                    }
                },
                None => {
                    if cx.ast.constant(folded) {
                        lemma_partial_in(cx, st, folded, ty, address, path, level, clean);
                    }
                },
            }
        },
        _ => {},
    }
}

proof fn lemma_partial_in(
    cx: Cx,
    st: St,
    node: NodeId,
    ty: PredicateTy,
    address: Address,
    path: FieldPath,
    level: Seek,
    clean: bool,
)
    requires
        walkable(st, address.0 as nat),
        clean ==> seek_below(level, address.0 as nat),
    ensures
        ({
            let (after, seek) = model::partial(cx, st, node, ty, address, path, level);
            &&& walks(st, after, address.0 as nat)
            &&& clean ==> seeks_outward(st, after, seek, address.0 as nat)
        }),
    decreases model::rank(cx, node), node.0, 1nat, 0nat,
{
    lemma_walks_refl(st, address.0 as nat);
    match (cx.ast.kind(node), ty) {
        (ExprKind::Record(fields), PredicateTy::Record(tys)) => {
            lemma_partial_fields_in(
                cx,
                st,
                node,
                fields@,
                tys@,
                tys@.len(),
                address,
                path,
                level.closed(),
                clean,
            );
        },
        _ => {},
    }
}

proof fn lemma_partial_fields_in(
    cx: Cx,
    st: St,
    node: NodeId,
    fields: Seq<(Symbol, NodeId)>,
    tys: Seq<(NameKey, PredicateTy)>,
    k: nat,
    address: Address,
    path: FieldPath,
    level: Seek,
    clean: bool,
)
    requires
        walkable(st, address.0 as nat),
        clean ==> seek_below(level, address.0 as nat),
    ensures
        ({
            let (after, seek) = model::partial_fields(
                cx,
                st,
                node,
                fields,
                tys,
                k,
                address,
                path,
                level,
            );
            &&& walks(st, after, address.0 as nat)
            &&& clean ==> seeks_outward(st, after, seek, address.0 as nat)
        }),
    decreases model::rank(cx, node), node.0, 0nat, k,
{
    let n = address.0 as nat;
    lemma_walks_refl(st, n);
    if k > 0 {
        lemma_partial_fields_in(
            cx,
            st,
            node,
            fields,
            tys,
            (k - 1) as nat,
            address,
            path,
            level,
            clean,
        );
        let (s1, l1) = model::partial_fields(
            cx,
            st,
            node,
            fields,
            tys,
            (k - 1) as nat,
            address,
            path,
            level,
        );
        if let Some(piece) = model::field_pattern(fields, Symbol::Schema(tys[k - 1].0)) {
            if model::below(cx, node, piece) {
                let steps = path.inner().push((k - 1) as usize);
                let deeper = FieldPath::of(path.top(), steps);
                let s1 = s1.sealing(FieldPath::sealed(path.top(), steps));
                let (s2, l2) = model::field(cx, s1, piece, tys[k - 1].1, address, deeper, l1);
                let still = clean && s1.reports.len() == st.reports.len();
                lemma_field_in(cx, s1, piece, tys[k - 1].1, address, deeper, l1, still);
                lemma_walks(st, s1, s2, n);
            }
        }
    }
}

proof fn lemma_field_in(
    cx: Cx,
    st: St,
    node: NodeId,
    ty: PredicateTy,
    address: Address,
    path: FieldPath,
    level: Seek,
    clean: bool,
)
    requires
        walkable(st, address.0 as nat),
        clean ==> seek_below(level, address.0 as nat),
    ensures
        ({
            let (after, seek) = model::field(cx, st, node, ty, address, path, level);
            &&& walks(st, after, address.0 as nat)
            &&& clean ==> seeks_outward(st, after, seek, address.0 as nat)
        }),
    decreases model::rank(cx, node), node.0, 3nat, 0nat,
{
    let n = address.0 as nat;
    lemma_walks_refl(st, n);
    lemma_walks_report(cx, st, node, Code::RejectTypeMismatch, model::SAY_PREFIX_FIELD@, n);
    lemma_walks_report(cx, st, node, Code::NyiDisjunction, model::SAY_ALTERNATION@, n);
    lemma_walks_report(cx, st, node, Code::NyiNever, model::SAY_NEVER@, n);
    match cx.ast.kind(node) {
        ExprKind::Wildcard => {},
        ExprKind::Prefix(_) => {
            if let Some(bytes) = model::constant(cx, st, node, ty) {
                if clean {
                    lemma_narrow_by(bytes, path, level, n);
                }
            }
        },
        ExprKind::Disjunction(_) => {},
        ExprKind::Never => {},
        kind => {
            if kind is Var && model::lookup(st.bindings, kind->Var_0) is None {
                let symbol = kind->Var_0;
                let slot = Slot::Field { address, path, ty };
                let bound = st.binding(symbol, slot);
                lemma_push_in(st.bindings, symbol, slot, n, n + 1);
                lemma_grows_refl(st);
                assert(bound.bindings.take(st.bindings.len() as int) =~= st.bindings);
                assert(walks(st, bound, n));
                lemma_constrain_in(cx, bound, symbol, ty, path, level, n, clean);
                lemma_walks(
                    st,
                    bound,
                    model::constrain(cx, bound, symbol, ty, path, level).0,
                    n,
                );
            } else {
                lemma_resolve_in(cx, st, node, n, n + 1);
                let (s1, found) = model::resolve(cx, st, node);
                lemma_walks_resolve(st, s1, n);
                let still = clean && s1.reports.len() == st.reports.len();
                match found {
                    Some(slot) => {
                        lemma_matched_in(cx, s1, node, slot, ty, address, path, level, still);
                        lemma_walks(
                            st,
                            s1,
                            model::matched(cx, s1, node, slot, ty, address, path, level).0,
                            n,
                        );
                    },
                    None => {
                        if kind is Record {
                            lemma_partial_in(cx, s1, node, ty, address, path, level, still);
                            lemma_walks(
                                st,
                                s1,
                                model::partial(cx, s1, node, ty, address, path, level).0,
                                n,
                            );
                        } else {
                            lemma_walks_report(
                                cx,
                                s1,
                                node,
                                Code::RejectUnresolvedAccess,
                                model::SAY_UNRESOLVED@,
                                n,
                            );
                            lemma_walks(
                                st,
                                s1,
                                model::report(
                                    cx,
                                    s1,
                                    node,
                                    Code::RejectUnresolvedAccess,
                                    model::SAY_UNRESOLVED@,
                                ),
                                n,
                            );
                        }
                    },
                }
            }
        },
    }
}

proof fn lemma_whole_fields_in(
    cx: Cx,
    st: St,
    node: NodeId,
    slot: Slot,
    tys: Seq<(NameKey, PredicateTy)>,
    k: nat,
    address: Address,
    level: Seek,
    clean: bool,
)
    requires
        walkable(st, address.0 as nat),
        slot_in(slot, address.0 as nat, address.0 as nat + 1),
        clean ==> seek_below(level, address.0 as nat),
    ensures
        ({
            let (after, seek) = model::whole_fields(cx, st, node, slot, tys, k, address, level);
            &&& walks(st, after, address.0 as nat)
            &&& clean ==> seeks_outward(st, after, seek, address.0 as nat)
        }),
    decreases k,
{
    let n = address.0 as nat;
    lemma_walks_refl(st, n);
    if k > 0 {
        lemma_whole_fields_in(cx, st, node, slot, tys, (k - 1) as nat, address, level, clean);
        let (s1, l1) = model::whole_fields(
            cx,
            st,
            node,
            slot,
            tys,
            (k - 1) as nat,
            address,
            level,
        );
        let name = Symbol::Schema(tys[k - 1].0);
        lemma_field_slot_in(cx, s1, node, slot, name, n, n + 1);
        let (s2, found) = model::field_slot(cx, s1, node, slot, name);
        lemma_walks_resolve(s1, s2, n);
        lemma_walks(st, s1, s2, n);
        if let Some(inner) = found {
            let path = FieldPath::of((k - 1) as usize, Seq::empty());
            let s2 = s2.sealing(FieldPath::sealed((k - 1) as usize, Seq::empty()));
            let still = clean && s2.reports.len() == st.reports.len();
            lemma_matched_in(cx, s2, node, inner, tys[k - 1].1, address, path, l1, still);
            lemma_walks(
                st,
                s2,
                model::matched(cx, s2, node, inner, tys[k - 1].1, address, path, l1).0,
                n,
            );
        }
    }
}

proof fn lemma_whole_key_in(
    cx: Cx,
    st: St,
    node: NodeId,
    key_ty: PredicateTy,
    tys: Seq<(NameKey, PredicateTy)>,
    address: Address,
    level: Seek,
)
    requires
        walkable(st, address.0 as nat),
        seek_below(level, address.0 as nat),
    ensures
        ({
            let (after, seek) = model::whole_key(cx, st, node, key_ty, tys, address, level);
            &&& walks(st, after, address.0 as nat)
            &&& seeks_outward(st, after, seek, address.0 as nat)
        }),
{
    let n = address.0 as nat;
    lemma_walks_refl(st, n);
    match cx.ast.kind(node) {
        ExprKind::Wildcard => {},
        kind => {
            if kind is Var && model::lookup(st.bindings, kind->Var_0) is None {
                let slot = Slot::Key { address, ty: key_ty };
                let bound = st.binding(kind->Var_0, slot);
                lemma_push_in(st.bindings, kind->Var_0, slot, n, n + 1);
                assert(bound.bindings.take(st.bindings.len() as int) =~= st.bindings);
            } else {
                lemma_resolve_in(cx, st, node, n, n + 1);
                let (s1, found) = model::resolve(cx, st, node);
                lemma_walks_resolve(st, s1, n);
                if let Some(slot) = found {
                    lemma_whole_fields_in(
                        cx,
                        s1,
                        node,
                        slot,
                        tys,
                        tys.len(),
                        address,
                        level,
                        true,
                    );
                    lemma_walks(
                        st,
                        s1,
                        model::whole_fields(cx, s1, node, slot, tys, tys.len(), address, level).0,
                        n,
                    );
                }
            }
        },
    }
}

proof fn lemma_key_fields_in(
    cx: Cx,
    st: St,
    fields: Seq<(Symbol, NodeId)>,
    tys: Seq<(NameKey, PredicateTy)>,
    k: nat,
    address: Address,
    level: Seek,
)
    requires
        walkable(st, address.0 as nat),
        seek_below(level, address.0 as nat),
    ensures
        ({
            let (after, seek) = model::key_fields(cx, st, fields, tys, k, address, level);
            &&& walks(st, after, address.0 as nat)
            &&& seeks_outward(st, after, seek, address.0 as nat)
        }),
    decreases k,
{
    let n = address.0 as nat;
    lemma_walks_refl(st, n);
    if k > 0 {
        lemma_key_fields_in(cx, st, fields, tys, (k - 1) as nat, address, level);
        let (s1, l1) = model::key_fields(cx, st, fields, tys, (k - 1) as nat, address, level);
        if let Some(pattern) = model::field_pattern(fields, Symbol::Schema(tys[k - 1].0)) {
            let path = FieldPath::of((k - 1) as usize, Seq::empty());
            let s1 = s1.sealing(FieldPath::sealed((k - 1) as usize, Seq::empty()));
            let still = s1.reports.len() == st.reports.len();
            lemma_field_in(cx, s1, pattern, tys[k - 1].1, address, path, l1, still);
            lemma_walks(
                st,
                s1,
                model::field(cx, s1, pattern, tys[k - 1].1, address, path, l1).0,
                n,
            );
        }
    }
}

/// Walking a level's key binds in the level's own register or an outer one, and, where
/// nothing is reported, seeks by outer ones only.
pub proof fn lemma_key_in(cx: Cx, st: St, node: NodeId, key_ty: PredicateTy, address: Address)
    requires
        walkable(st, address.0 as nat),
    ensures
        ({
            let (after, seek) = model::key(cx, st, node, key_ty, address, Seek::empty());
            &&& walks(st, after, address.0 as nat)
            &&& seeks_outward(st, after, seek, address.0 as nat)
        }),
{
    let level = Seek::empty();
    match (key_ty, cx.ast.kind(node)) {
        (PredicateTy::Record(tys), ExprKind::Record(fields)) => {
            lemma_key_fields_in(cx, st, fields@, tys@, tys@.len(), address, level);
        },
        (PredicateTy::Record(tys), _) => {
            lemma_whole_key_in(cx, st, node, key_ty, tys@, address, level);
        },
        _ => {
            let path = FieldPath::of(0, Seq::empty());
            let sealed = st.sealing(FieldPath::sealed(0, Seq::empty()));
            lemma_walks_refl(st, address.0 as nat);
            lemma_field_in(cx, sealed, node, key_ty, address, path, level, true);
            lemma_walks(
                st,
                sealed,
                model::field(cx, sealed, node, key_ty, address, path, level).0,
                address.0 as nat,
            );
        },
    }
}

/// Reconciling two branches only reports.
pub proof fn lemma_reconciled_in(
    cx: Cx,
    st: St,
    at: NodeId,
    first: Seq<(Symbol, Slot)>,
    branch: Seq<(Symbol, Slot)>,
    k: nat,
)
    ensures
        only_reports(st, emitting::reconciled(cx, st, at, first, branch, k)),
    decreases k,
{
    lemma_grows_refl(st);
    if k > 0 {
        lemma_reconciled_in(cx, st, at, first, branch, (k - 1) as nat);
        let s1 = emitting::reconciled(cx, st, at, first, branch, (k - 1) as nat);
        let report = Report {
            code: Code::NyiDisjunction,
            message: model::SAY_QUOTE@ + s1.names.shown(branch[k - 1].0)
                + model::SAY_DIFFERENT_FIELD@,
            span: cx.ast.span(at),
        };
        lemma_reporting(s1, report);
        lemma_grows(st, s1, s1.reporting(report));
    }
}

// ---- collecting -------------------------------------------------------------

/// What collecting keeps: reports grow, no reference is followed, and every place named
/// is a constant.
pub open spec fn gathers(a: St, b: St) -> bool {
    &&& grows(a, b)
    &&& within(b, 0)
}

pub proof fn lemma_gathers(a: St, b: St, c: St)
    requires
        gathers(a, b),
        gathers(b, c),
    ensures
        gathers(a, c),
{
    lemma_grows(a, b, c);
}

proof fn lemma_gathers_refl(a: St)
    requires
        within(a, 0),
    ensures
        gathers(a, a),
{
    lemma_grows_refl(a);
}

proof fn lemma_gathers_reporting(a: St, report: Report)
    requires
        within(a, 0),
    ensures
        gathers(a, a.reporting(report)),
{
    lemma_reporting(a, report);
}

proof fn lemma_gathers_report(cx: Cx, a: St, node: NodeId, code: Code, message: Seq<char>)
    requires
        within(a, 0),
    ensures
        gathers(a, model::report(cx, a, node, code, message)),
{
    lemma_reporting(a, Report { code, message, span: cx.ast.span(node) });
}

proof fn lemma_branches_gather(cx: Cx, st: St, branches: Seq<NodeId>, k: nat)
    requires
        within(st, 0),
    ensures
        gathers(st, collecting::branches_of(cx, st, branches, k).0),
    decreases k,
{
    lemma_gathers_refl(st);
    if k > 0 {
        lemma_branches_gather(cx, st, branches, (k - 1) as nat);
        let (s1, _) = collecting::branches_of(cx, st, branches, (k - 1) as nat);
        lemma_gathers_report(cx, s1, branches[k - 1], Code::NyiDisjunction, model::SAY_BRANCH@);
        lemma_gathers(
            st,
            s1,
            model::report(cx, s1, branches[k - 1], Code::NyiDisjunction, model::SAY_BRANCH@),
        );
    }
}

pub proof fn lemma_generator_gathers(cx: Cx, st: St, node: NodeId, row: Option<Symbol>)
    requires
        within(st, 0),
    ensures
        gathers(st, collecting::generator(cx, st, node, row).0),
{
    lemma_gathers_refl(st);
    lemma_gathers_report(
        cx,
        st,
        node,
        Code::RejectNotAGenerator,
        model::SAY_NO_GENERATOR@,
    );
    if let ExprKind::Disjunction(branches) = cx.ast.kind(node) {
        lemma_branches_gather(cx, st, branches@, branches@.len());
    }
}

proof fn lemma_negated_gathers(cx: Cx, st: St, node: NodeId)
    requires
        within(st, 0),
    ensures
        gathers(st, collecting::negated(cx, st, node).0),
{
    lemma_gathers_report(cx, st, node, Code::NyiNegation, model::SAY_NEGATED_SUBQUERY@);
    lemma_generator_gathers(cx, st, node, None);
    let (s1, found) = collecting::generator(cx, st, node, None);
    if let Some(tested) = found {
        if let Some(key) = collecting::nesting_alt(cx, tested.alternatives@, 0) {
            lemma_gathers_report(cx, s1, key, Code::NyiNegation, model::SAY_NEGATED_NEST@);
            lemma_gathers(
                st,
                s1,
                model::report(cx, s1, key, Code::NyiNegation, model::SAY_NEGATED_NEST@),
            );
        }
    }
}

pub proof fn lemma_hoist_within_gathers(cx: Cx, st: St, stmts: Seq<Stmt>, node: NodeId)
    requires
        within(st, 0),
    ensures
        gathers(st, collecting::hoist_within(cx, st, stmts, node).0),
    decreases node.0, 1nat, 0nat,
{
    lemma_gathers_refl(st);
    match cx.ast.kind(node) {
        ExprKind::Record(fields) => {
            lemma_hoist_fields_gather(cx, st, stmts, node, fields@, fields@.len());
        },
        ExprKind::Access(_, base) => {
            if base.0 < node.0 {
                lemma_hoist_node_gathers(cx, st, stmts, base);
            }
        },
        ExprKind::Select(_, base) => {
            if base.0 < node.0 {
                lemma_hoist_node_gathers(cx, st, stmts, base);
            }
        },
        _ => {},
    }
}

pub proof fn lemma_hoist_fields_gather(
    cx: Cx,
    st: St,
    stmts: Seq<Stmt>,
    node: NodeId,
    fields: Seq<(Symbol, NodeId)>,
    k: nat,
)
    requires
        within(st, 0),
    ensures
        gathers(st, collecting::hoist_fields(cx, st, stmts, node, fields, k).0),
    decreases node.0, 0nat, k,
{
    lemma_gathers_refl(st);
    if k > 0 {
        lemma_hoist_fields_gather(cx, st, stmts, node, fields, (k - 1) as nat);
        let (s1, q1) = collecting::hoist_fields(cx, st, stmts, node, fields, (k - 1) as nat);
        if fields[k - 1].1.0 < node.0 {
            lemma_hoist_node_gathers(cx, s1, q1, fields[k - 1].1);
            lemma_gathers(st, s1, collecting::hoist_node(cx, s1, q1, fields[k - 1].1).0);
        }
    }
}

pub proof fn lemma_hoist_node_gathers(cx: Cx, st: St, stmts: Seq<Stmt>, node: NodeId)
    requires
        within(st, 0),
    ensures
        gathers(st, collecting::hoist_node(cx, st, stmts, node).0),
    decreases node.0, 2nat, 0nat,
{
    lemma_gathers_refl(st);
    match cx.ast.kind(node) {
        ExprKind::Fact(predicate, key) => {
            if key.0 < node.0 {
                lemma_hoist_within_gathers(cx, st, stmts, key);
            }
        },
        _ => {
            lemma_hoist_within_gathers(cx, st, stmts, node);
        },
    }
}

pub proof fn lemma_hoist_alts_gather(cx: Cx, st: St, stmts: Seq<Stmt>, alts: Seq<Alt>, k: nat)
    requires
        within(st, 0),
    ensures
        gathers(st, collecting::hoist_alts(cx, st, stmts, alts, k).0),
    decreases k,
{
    lemma_gathers_refl(st);
    if k > 0 {
        lemma_hoist_alts_gather(cx, st, stmts, alts, (k - 1) as nat);
        let (s1, q1) = collecting::hoist_alts(cx, st, stmts, alts, (k - 1) as nat);
        lemma_hoist_within_gathers(cx, s1, q1, alts[k - 1].key);
        lemma_gathers(st, s1, collecting::hoist_within(cx, s1, q1, alts[k - 1].key).0);
    }
}

pub proof fn lemma_scanned_gathers(
    cx: Cx,
    st: St,
    stmts: Seq<Stmt>,
    node: NodeId,
    row: Option<Symbol>,
)
    requires
        within(st, 0),
    ensures
        gathers(st, collecting::scanned(cx, st, stmts, node, row).0),
{
    lemma_generator_gathers(cx, st, node, row);
    let (s1, found) = collecting::generator(cx, st, node, row);
    if let Some(scan) = found {
        let alts = scan.alternatives@;
        lemma_hoist_alts_gather(cx, s1, stmts, alts, alts.len());
        lemma_gathers(st, s1, collecting::hoist_alts(cx, s1, stmts, alts, alts.len()).0);
    }
}

pub proof fn lemma_inlined_gathers(cx: Cx, st: St, stmts: Seq<Stmt>, body: Seq<QueryStmt>, k: nat)
    requires
        within(st, 0),
    ensures
        gathers(st, collecting::inlined(cx, st, stmts, body, k).0),
    decreases k,
{
    lemma_gathers_refl(st);
    if k > 0 {
        lemma_inlined_gathers(cx, st, stmts, body, (k - 1) as nat);
        let (s1, q1) = collecting::inlined(cx, st, stmts, body, (k - 1) as nat);
        match body[k - 1] {
            QueryStmt::Implicit(node) => {
                lemma_scanned_gathers(cx, s1, q1, node, None);
                lemma_gathers(st, s1, collecting::scanned(cx, s1, q1, node, None).0);
            },
            QueryStmt::Bind(lhs, rhs) => {
                lemma_hoist_within_gathers(cx, s1, q1, rhs);
                lemma_gathers(st, s1, collecting::hoist_within(cx, s1, q1, rhs).0);
            },
            QueryStmt::Negation(node) => {
                lemma_gathers_report(cx, s1, node, Code::NyiNegation, model::SAY_NEGATED_INSIDE@);
                lemma_gathers(
                    st,
                    s1,
                    model::report(cx, s1, node, Code::NyiNegation, model::SAY_NEGATED_INSIDE@),
                );
            },
        }
    }
}

pub proof fn lemma_stmt_gathers(cx: Cx, st: St, stmts: Seq<Stmt>, stmt: QueryStmt)
    requires
        within(st, 0),
    ensures
        gathers(st, collecting::collected_stmt(cx, st, stmts, stmt).0),
{
    lemma_gathers_refl(st);
    match stmt {
        QueryStmt::Implicit(node) => {
            lemma_scanned_gathers(cx, st, stmts, node, None);
        },
        QueryStmt::Bind(lhs, rhs) => {
            match cx.ast.kind(rhs) {
                ExprKind::Subquery(query) => {
                    if let Some(name) = collecting::shadowed(cx, query.body@, rhs) {
                        lemma_gathers_report(
                            cx,
                            st,
                            rhs,
                            Code::NyiSubquery,
                            model::SAY_SHADOWS@ + st.names.shown(name) + model::SAY_SHADOWS_OUTER@,
                        );
                    }
                    lemma_inlined_gathers(cx, st, stmts, query.body@, query.body@.len());
                },
                kind => {
                    let row = match cx.ast.kind(lhs) {
                        ExprKind::Var(symbol) => Some(symbol),
                        _ => None,
                    };
                    lemma_scanned_gathers(cx, st, stmts, rhs, row);
                    lemma_bind_pattern_in(cx, st, lhs, Slot::Const(rhs), 0, 0);
                    lemma_hoist_within_gathers(cx, st, stmts, rhs);
                    lemma_gathers_report(
                        cx,
                        st,
                        rhs,
                        Code::NyiValueBind,
                        model::SAY_VALUE_BIND@,
                    );
                },
            }
        },
        QueryStmt::Negation(node) => {
            lemma_negated_gathers(cx, st, node);
        },
    }
}

pub proof fn lemma_body_gathers(cx: Cx, st: St, body: Seq<QueryStmt>, k: nat)
    requires
        within(st, 0),
    ensures
        gathers(st, collecting::collected_body(cx, st, body, k).0),
    decreases k,
{
    lemma_gathers_refl(st);
    if k > 0 {
        lemma_body_gathers(cx, st, body, (k - 1) as nat);
        let (s1, q1) = collecting::collected_body(cx, st, body, (k - 1) as nat);
        lemma_stmt_gathers(cx, s1, q1, body[k - 1]);
        lemma_gathers(st, s1, collecting::collected_stmt(cx, s1, q1, body[k - 1]).0);
    }
}

proof fn lemma_claim_names_gathers(
    st: St,
    claims: Claimed,
    names: Seq<Symbol>,
    k: nat,
    span: NodeSpan,
    is_row: bool,
)
    requires
        within(st, 0),
    ensures
        gathers(st, collecting::claim_names(st, claims, names, k, span, is_row).0),
    decreases k,
{
    lemma_gathers_refl(st);
    if k > 0 {
        lemma_claim_names_gathers(st, claims, names, (k - 1) as nat, span, is_row);
        let (s1, _) = collecting::claim_names(st, claims, names, (k - 1) as nat, span, is_row);
        let report = Report {
            code: Code::NyiBindUnification,
            message: model::SAY_ALREADY@ + s1.names.shown(names[k - 1]) + model::SAY_ALREADY_IS@,
            span,
        };
        lemma_gathers_reporting(s1, report);
        lemma_gathers(st, s1, s1.reporting(report));
    }
}

pub proof fn lemma_claimed_gathers(cx: Cx, st: St, stmts: Seq<Stmt>, k: nat)
    requires
        within(st, 0),
    ensures
        gathers(st, collecting::claimed(cx, st, stmts, k).0),
    decreases k,
{
    lemma_gathers_refl(st);
    if k > 0 {
        lemma_claimed_gathers(cx, st, stmts, (k - 1) as nat);
        let (s1, c1) = collecting::claimed(cx, st, stmts, (k - 1) as nat);
        match stmts[k - 1] {
            Stmt::Scan(scan) => {
                if let Some(row) = scan.row {
                    lemma_claim_names_gathers(s1, c1, seq![row], 1, scan.span, true);
                    lemma_gathers(
                        st,
                        s1,
                        collecting::claim_names(s1, c1, seq![row], 1, scan.span, true).0,
                    );
                }
            },
            Stmt::Alias(alias) => {
                let names = model::bare_variables(cx, alias.pattern);
                lemma_claim_names_gathers(s1, c1, names, names.len(), alias.span, false);
                lemma_gathers(
                    st,
                    s1,
                    collecting::claim_names(s1, c1, names, names.len(), alias.span, false).0,
                );
            },
            _ => {},
        }
    }
}

proof fn lemma_scan_field_gathers(
    cx: Cx,
    st: St,
    node: NodeId,
    ty: PredicateTy,
    claims: Claimed,
    occurs: Occurs,
)
    requires
        within(st, 0),
    ensures
        gathers(st, collecting::scan_field(cx, st, node, ty, claims, occurs).0),
    decreases node.0, 1nat, 0nat,
{
    lemma_gathers_refl(st);
    lemma_gathers_report(cx, st, node, Code::NyiValueMatch, model::SAY_VALUE_MATCH_ROW@);
    if let ExprKind::Record(fields) = cx.ast.kind(node) {
        if let PredicateTy::Record(tys) = ty {
            lemma_scan_fields_gather(
                cx,
                st,
                node,
                fields@,
                tys@,
                tys@.len(),
                claims,
                occurs,
            );
        }
    }
}

proof fn lemma_scan_fields_gather(
    cx: Cx,
    st: St,
    node: NodeId,
    fields: Seq<(Symbol, NodeId)>,
    tys: Seq<(NameKey, PredicateTy)>,
    k: nat,
    claims: Claimed,
    occurs: Occurs,
)
    requires
        within(st, 0),
    ensures
        gathers(
            st,
            collecting::scan_fields(cx, st, node, fields, tys, k, claims, occurs).0,
        ),
    decreases node.0, 0nat, k,
{
    lemma_gathers_refl(st);
    if k > 0 {
        lemma_scan_fields_gather(cx, st, node, fields, tys, (k - 1) as nat, claims, occurs);
        let (s1, o1) = collecting::scan_fields(
            cx,
            st,
            node,
            fields,
            tys,
            (k - 1) as nat,
            claims,
            occurs,
        );
        if let Some(piece) = model::field_pattern(fields, Symbol::Schema(tys[k - 1].0)) {
            if piece.0 < node.0 {
                lemma_scan_field_gathers(cx, s1, piece, tys[k - 1].1, claims, o1);
                lemma_gathers(
                    st,
                    s1,
                    collecting::scan_field(cx, s1, piece, tys[k - 1].1, claims, o1).0,
                );
            }
        }
    }
}

proof fn lemma_scan_key_gathers(cx: Cx, st: St, alt: Alt, claims: Claimed, occurs: Occurs)
    requires
        within(st, 0),
    ensures
        gathers(st, collecting::scan_key(cx, st, alt, claims, occurs).0),
{
    lemma_gathers_refl(st);
    if let Some(declared) = cx.schema.predicate(alt.predicate) {
        lemma_scan_field_gathers(cx, st, alt.key, declared.key, claims, occurs);
    }
}

pub proof fn lemma_scan_head_gathers(cx: Cx, st: St, node: NodeId, occurs: Occurs)
    requires
        within(st, 0),
    ensures
        gathers(st, collecting::scan_head(cx, st, node, occurs).0),
    decreases node.0, 1nat, 0nat,
{
    lemma_gathers_refl(st);
    lemma_gathers_report(cx, st, node, Code::RejectNotProjectable, model::SAY_NOT_PROJECTABLE@);
    if let ExprKind::Record(fields) = cx.ast.kind(node) {
        lemma_scan_head_fields_gather(cx, st, node, fields@, fields@.len(), occurs);
    }
}

proof fn lemma_scan_head_fields_gather(
    cx: Cx,
    st: St,
    node: NodeId,
    fields: Seq<(Symbol, NodeId)>,
    k: nat,
    occurs: Occurs,
)
    requires
        within(st, 0),
    ensures
        gathers(st, collecting::scan_head_fields(cx, st, node, fields, k, occurs).0),
    decreases node.0, 0nat, k,
{
    lemma_gathers_refl(st);
    if k > 0 {
        lemma_scan_head_fields_gather(cx, st, node, fields, (k - 1) as nat, occurs);
        let (s1, o1) = collecting::scan_head_fields(
            cx,
            st,
            node,
            fields,
            (k - 1) as nat,
            occurs,
        );
        if fields[k - 1].1.0 < node.0 {
            lemma_scan_head_gathers(cx, s1, fields[k - 1].1, o1);
            lemma_gathers(st, s1, collecting::scan_head(cx, s1, fields[k - 1].1, o1).0);
        }
    }
}

pub proof fn lemma_scan_branches_gather(cx: Cx, st: St, claims: Claimed, alts: Seq<Alt>, k: nat)
    requires
        within(st, 0),
    ensures
        gathers(st, collecting::scan_branches(cx, st, claims, alts, k).0),
    decreases k,
{
    lemma_gathers_refl(st);
    if k > 0 {
        lemma_scan_branches_gather(cx, st, claims, alts, (k - 1) as nat);
        let (s1, _, _) = collecting::scan_branches(cx, st, claims, alts, (k - 1) as nat);
        lemma_scan_key_gathers(cx, s1, alts[k - 1], claims, Occurs::none());
        lemma_gathers(
            st,
            s1,
            collecting::scan_key(cx, s1, alts[k - 1], claims, Occurs::none()).0,
        );
    }
}

pub proof fn lemma_scan_alts_gather(
    cx: Cx,
    st: St,
    claims: Claimed,
    alts: Seq<Alt>,
    k: nat,
    occurs: Occurs,
)
    requires
        within(st, 0),
    ensures
        gathers(st, collecting::scan_alts(cx, st, claims, alts, k, occurs).0),
    decreases k,
{
    lemma_gathers_refl(st);
    if k > 0 {
        lemma_scan_alts_gather(cx, st, claims, alts, (k - 1) as nat, occurs);
        let (s1, o1) = collecting::scan_alts(cx, st, claims, alts, (k - 1) as nat, occurs);
        lemma_scan_key_gathers(cx, s1, alts[k - 1], claims, o1);
        lemma_gathers(st, s1, collecting::scan_key(cx, s1, alts[k - 1], claims, o1).0);
    }
}

pub proof fn lemma_deps_gather(cx: Cx, st: St, claims: Claimed, stmts: Seq<Stmt>, k: nat)
    requires
        within(st, 0),
    ensures
        gathers(st, collecting::deps_of(cx, st, claims, stmts, k).0),
        collecting::deps_of(cx, st, claims, stmts, k).1.len() == k,
    decreases k,
{
    lemma_gathers_refl(st);
    if k > 0 {
        lemma_deps_gather(cx, st, claims, stmts, (k - 1) as nat);
        let (s1, _) = collecting::deps_of(cx, st, claims, stmts, (k - 1) as nat);
        lemma_gathers_refl(s1);
        match stmts[k - 1] {
            Stmt::Scan(scan) => {
                let alts = scan.alternatives@;
                lemma_scan_branches_gather(cx, s1, claims, alts, alts.len());
            },
            Stmt::Negate(tested) => {
                let alts = tested.alternatives@;
                lemma_scan_alts_gather(cx, s1, claims, alts, alts.len(), Occurs::none());
            },
            _ => {},
        }
        let (s2, occurs) = collecting::stmt_occurs(cx, s1, claims, stmts[k - 1]);
        lemma_gathers(st, s1, s2);
        lemma_grows_refl(s2);
        lemma_gathers(st, s2, s2.sealing(occurs.sealed()));
    }
}

proof fn lemma_unbound_reads_gather(
    st: St,
    known: Seq<Symbol>,
    reads: Seq<Symbol>,
    k: nat,
    span: NodeSpan,
)
    requires
        within(st, 0),
    ensures
        gathers(st, collecting::unbound_reads(st, known, reads, k, span)),
    decreases k,
{
    lemma_gathers_refl(st);
    if k > 0 {
        lemma_unbound_reads_gather(st, known, reads, (k - 1) as nat, span);
        let s1 = collecting::unbound_reads(st, known, reads, (k - 1) as nat, span);
        let report = Report {
            code: Code::RejectUnboundVariable,
            message: model::SAY_NOTHING_BINDS@ + s1.names.shown(reads[k - 1])
                + model::SAY_WILDCARD_MEANT@,
            span,
        };
        lemma_gathers_reporting(s1, report);
        lemma_gathers(st, s1, s1.reporting(report));
    }
}

pub proof fn lemma_negated_wildcards_gather(
    st: St,
    known: Seq<Symbol>,
    stmts: Seq<Stmt>,
    deps: Seq<StmtDeps>,
    k: nat,
)
    requires
        within(st, 0),
    ensures
        gathers(st, collecting::negated_wildcards(st, known, stmts, deps, k)),
    decreases k,
{
    lemma_gathers_refl(st);
    if k > 0 {
        lemma_negated_wildcards_gather(st, known, stmts, deps, (k - 1) as nat);
        let s1 = collecting::negated_wildcards(st, known, stmts, deps, (k - 1) as nat);
        if let Stmt::Negate(tested) = stmts[k - 1] {
            let reads = deps[k - 1].reads@;
            lemma_unbound_reads_gather(s1, known, reads, reads.len(), tested.span);
            lemma_gathers(
                st,
                s1,
                collecting::unbound_reads(s1, known, reads, reads.len(), tested.span),
            );
        }
    }
}

/// Collecting only adds reports, binds constants only, and has a dependency for every
/// statement.
pub proof fn lemma_collected_gathers(cx: Cx, st: St)
    requires
        within(st, 0),
    ensures
        gathers(st, collecting::collected(cx, st).0),
        collecting::collected(cx, st).1 matches Some(gathered) ==> {
            &&& gathered.deps.len() == gathered.stmts.len()
            &&& collecting::collected(cx, st).0.reports == st.reports
        },
{
    let query = cx.ast.root();
    let (s1, q1) = collecting::collected_body(cx, st, query.body@, query.body@.len());
    lemma_body_gathers(cx, st, query.body@, query.body@.len());
    let (s2, q2) = collecting::hoist_node(cx, s1, q1, query.head);
    lemma_hoist_node_gathers(cx, s1, q1, query.head);
    lemma_gathers(st, s1, s2);
    let stmts = collecting::all_oriented(cx, q2);
    let (s3, claims) = collecting::claimed(cx, s2, stmts, stmts.len());
    lemma_claimed_gathers(cx, s2, stmts, stmts.len());
    lemma_gathers(st, s2, s3);
    let (s4, deps) = collecting::deps_of(cx, s3, claims, stmts, stmts.len());
    lemma_deps_gather(cx, s3, claims, stmts, stmts.len());
    lemma_gathers(st, s3, s4);
    let known = collecting::all_captures(deps, deps.len()) + collecting::folded(
        s4.bindings,
        s4.bindings.len(),
    );
    let s5 = collecting::negated_wildcards(s4, known, stmts, deps, stmts.len());
    lemma_negated_wildcards_gather(s4, known, stmts, deps, stmts.len());
    lemma_gathers(st, s4, s5);
    let (s6, _) = collecting::scan_head(cx, s5, query.head, Occurs::none());
    lemma_scan_head_gathers(cx, s5, query.head, Occurs::none());
    lemma_gathers(st, s5, s6);
    if s6.reports.len() == st.reports.len() {
        lemma_no_reports(st, s6);
    }
}

// ---- the head ---------------------------------------------------------------

/// The head projects registers below `n` where every place is in one.
pub proof fn lemma_projected_in(cx: Cx, st: St, node: NodeId, n: nat)
    requires
        bindings_in(st.bindings, n, n),
        fetched_in(st.fetched, n),
    ensures
        only_reports(st, emitting::projected(cx, st, node).0),
        emitting::projected(cx, st, node).1 matches Some(found) ==> program::projects_below(
            found,
            n,
        ),
    decreases model::rank(cx, node), node.0, 1nat, 0nat,
{
    lemma_grows_refl(st);
    match cx.ast.kind(node) {
        ExprKind::Lit(_) => {},
        ExprKind::Record(fields) => {
            lemma_projected_fields_in(cx, st, node, fields@, fields@.len(), n);
        },
        kind => {
            if kind is Var || kind is Access || kind is Fact {
                lemma_resolve_in(cx, st, node, n, n);
                let (s1, found) = model::resolve(cx, st, node);
                match found {
                    Some(Slot::Key { address, ty }) => {
                        if let PredicateTy::Record(tys) = ty {
                            let fields = emitting::key_record(address, tys@);
                            assert forall|i: int|
                                0 <= i < fields.len() implies program::projects_below(
                                (#[trigger] fields[i]).1,
                                n,
                            ) by {}
                        }
                    },
                    Some(Slot::Const(folded)) => {
                        if cx.ast.constant(folded) {
                            lemma_projected_in(cx, s1, folded, n);
                            lemma_grows(st, s1, emitting::projected(cx, s1, folded).0);
                        }
                    },
                    _ => {},
                }
            }
        },
    }
}

proof fn lemma_projected_fields_in(
    cx: Cx,
    st: St,
    node: NodeId,
    fields: Seq<(Symbol, NodeId)>,
    k: nat,
    n: nat,
)
    requires
        bindings_in(st.bindings, n, n),
        fetched_in(st.fetched, n),
    ensures
        only_reports(st, emitting::projected_fields(cx, st, node, fields, k).0),
        emitting::projected_fields(cx, st, node, fields, k).1 matches Some(found) ==> (forall|
            i: int,
        |
            0 <= i < found.len() ==> program::projects_below((#[trigger] found[i]).1, n)),
    decreases model::rank(cx, node), node.0, 0nat, k,
{
    lemma_grows_refl(st);
    if k > 0 {
        lemma_projected_fields_in(cx, st, node, fields, (k - 1) as nat, n);
        let (s1, before) = emitting::projected_fields(cx, st, node, fields, (k - 1) as nat);
        if before is Some && model::below(cx, node, fields[k - 1].1) {
            lemma_projected_in(cx, s1, fields[k - 1].1, n);
            lemma_grows(st, s1, emitting::projected(cx, s1, fields[k - 1].1).0);
        }
    }
}

// ---- safety -----------------------------------------------------------------

/// Checking reads only reports, and reports exactly where it fails.
proof fn lemma_check_reads(
    before: emitting::Safety,
    reads: Seq<Symbol>,
    k: nat,
    span: NodeSpan,
)
    ensures
        ({
            let after = emitting::check_reads(before, reads, k, span);
            &&& only_reports(before.st, after.st)
            &&& after.safe ==> before.safe && after.st == before.st
            &&& before.safe && !after.safe ==> after.st.reports.len() > before.st.reports.len()
            &&& after.bound == before.bound
            &&& after.broken == before.broken
        }),
    decreases k,
{
    lemma_grows_refl(before.st);
    if k > 0 {
        lemma_check_reads(before, reads, (k - 1) as nat, span);
        let s = emitting::check_reads(before, reads, (k - 1) as nat, span);
        let report = Report {
            code: Code::RejectUnboundVariable,
            message: model::SAY_NOTHING_BINDS@ + s.st.names.shown(reads[k - 1])
                + model::SAY_CAPTURED@,
            span,
        };
        lemma_reporting(s.st, report);
        lemma_grows(before.st, s.st, s.st.reporting(report));
    }
}

proof fn lemma_safe_stmts(st: St, gathered: collecting::Gathered, order: Seq<usize>, k: nat)
    ensures
        ({
            let after = emitting::safe_stmts(st, gathered, order, k);
            &&& only_reports(st, after.st)
            &&& after.safe ==> after.st == st && !after.broken
            &&& !after.safe && !after.broken ==> after.st.reports.len() > st.reports.len()
        }),
    decreases k,
{
    lemma_grows_refl(st);
    if k > 0 {
        lemma_safe_stmts(st, gathered, order, (k - 1) as nat);
        let before = emitting::safe_stmts(st, gathered, order, (k - 1) as nat);
        let i = order[k - 1] as int;
        if !before.broken && i < gathered.stmts.len() && i < gathered.deps.len() {
            let reads = gathered.deps[i].reads@;
            lemma_check_reads(before, reads, reads.len(), gathered.stmts[i].at());
            lemma_grows(
                st,
                before.st,
                emitting::check_reads(before, reads, reads.len(), gathered.stmts[i].at()).st,
            );
        }
    }
}

/// A safe order reports nothing and changes nothing; an unsafe one is reported, unless
/// it names a statement there is not.
pub proof fn lemma_safety(cx: Cx, st: St, gathered: collecting::Gathered, order: Seq<usize>)
    ensures
        only_reports(st, emitting::safety(cx, st, gathered, order).st),
        emitting::safety(cx, st, gathered, order).safe ==> emitting::safety(
            cx,
            st,
            gathered,
            order,
        ).st == st,
        !emitting::safety(cx, st, gathered, order).safe && !emitting::safety(
            cx,
            st,
            gathered,
            order,
        ).broken ==> emitting::safety(cx, st, gathered, order).st.reports.len() > st.reports.len(),
{
    lemma_safe_stmts(st, gathered, order, order.len());
    let checked = emitting::safe_stmts(st, gathered, order, order.len());
    if !checked.broken {
        let reads = gathered.head_reads;
        let span = cx.ast.span(cx.ast.root().head);
        lemma_check_reads(checked, reads, reads.len(), span);
        lemma_grows(
            st,
            checked.st,
            emitting::check_reads(checked, reads, reads.len(), span).st,
        );
    }
}

/// What is bound once the first `k` statements of an order have run: every folded
/// constant, and whatever those statements capture.
pub open spec fn bound_after(
    st: St,
    gathered: collecting::Gathered,
    order: Seq<usize>,
    k: nat,
) -> Seq<Symbol>
    decreases k,
{
    if k == 0 {
        collecting::folded(st.bindings, st.bindings.len())
    } else {
        bound_after(st, gathered, order, (k - 1) as nat) + gathered.deps[order[k
            - 1] as int].captures@
    }
}

/// Whether every one of `reads` is bound.
pub open spec fn all_bound(reads: Seq<Symbol>, bound: Seq<Symbol>) -> bool {
    forall|i: int| 0 <= i < reads.len() ==> bound.contains(#[trigger] reads[i])
}

/// Whether the first `k` statements of an order are statements, and each of them reads
/// only what is bound by then.
pub open spec fn reads_bound(
    st: St,
    gathered: collecting::Gathered,
    order: Seq<usize>,
    k: nat,
) -> bool {
    forall|j: int|
        0 <= j < k ==> order[j] < gathered.stmts.len() && order[j] < gathered.deps.len()
            && all_bound(
            gathered.deps[#[trigger] order[j] as int].reads@,
            bound_after(st, gathered, order, j as nat),
        )
}

proof fn lemma_check_reads_iff(
    before: emitting::Safety,
    reads: Seq<Symbol>,
    k: nat,
    span: NodeSpan,
)
    requires
        before.safe,
        before.missing.len() == 0,
        k <= reads.len(),
    ensures
        ({
            let after = emitting::check_reads(before, reads, k, span);
            &&& after.safe <==> (forall|i: int|
                0 <= i < k ==> before.bound.contains(#[trigger] reads[i]))
            &&& after.safe ==> after.missing.len() == 0
            &&& after.bound == before.bound
        }),
    decreases k,
{
    if k > 0 {
        lemma_check_reads_iff(before, reads, (k - 1) as nat, span);
        let s = emitting::check_reads(before, reads, (k - 1) as nat, span);
        let read = reads[k - 1];
        if s.safe && !s.bound.contains(read) {
            assert(!before.bound.contains(reads[k - 1]));
        }
    }
}

proof fn lemma_unsafe_stays(before: emitting::Safety, reads: Seq<Symbol>, k: nat, span: NodeSpan)
    requires
        !before.safe,
    ensures
        !emitting::check_reads(before, reads, k, span).safe,
    decreases k,
{
    if k > 0 {
        lemma_unsafe_stays(before, reads, (k - 1) as nat, span);
    }
}

proof fn lemma_safe_stmts_iff(st: St, gathered: collecting::Gathered, order: Seq<usize>, k: nat)
    requires
        k <= order.len(),
    ensures
        ({
            let after = emitting::safe_stmts(st, gathered, order, k);
            &&& after.safe <==> reads_bound(st, gathered, order, k)
            &&& after.safe ==> after.missing.len() == 0 && !after.broken && after.bound
                == bound_after(st, gathered, order, k)
        }),
    decreases k,
{
    if k > 0 {
        lemma_safe_stmts_iff(st, gathered, order, (k - 1) as nat);
        let before = emitting::safe_stmts(st, gathered, order, (k - 1) as nat);
        let i = order[k - 1] as int;
        let inside = i < gathered.stmts.len() && i < gathered.deps.len();
        if before.safe {
            if inside {
                let reads = gathered.deps[i].reads@;
                lemma_check_reads_iff(before, reads, reads.len(), gathered.stmts[i].at());
                lemma_check_reads(before, reads, reads.len(), gathered.stmts[i].at());
            }
            assert(reads_bound(st, gathered, order, k) <==> reads_bound(
                st,
                gathered,
                order,
                (k - 1) as nat,
            ) && inside && all_bound(
                gathered.deps[order[k - 1] as int].reads@,
                bound_after(st, gathered, order, (k - 1) as nat),
            ));
        } else {
            if !before.broken && inside {
                let reads = gathered.deps[i].reads@;
                lemma_unsafe_stays(before, reads, reads.len(), gathered.stmts[i].at());
            }
            assert(!reads_bound(st, gathered, order, (k - 1) as nat));
            let j = choose|j: int|
                0 <= j < k - 1 && !(order[j] < gathered.stmts.len() && order[j]
                    < gathered.deps.len() && all_bound(
                    gathered.deps[#[trigger] order[j] as int].reads@,
                    bound_after(st, gathered, order, j as nat),
                ));
            assert(0 <= j < k);
        }
    }
}

/// An order is accepted exactly where every variable a statement or the head reads is
/// bound by then: by a folded constant, or by a statement that runs before.
pub proof fn law_an_order_is_safe_iff_it_binds_before_it_reads(
    cx: Cx,
    st: St,
    gathered: collecting::Gathered,
    order: Seq<usize>,
)
    ensures
        emitting::safety(cx, st, gathered, order).safe <==> {
            &&& reads_bound(st, gathered, order, order.len())
            &&& all_bound(
                gathered.head_reads,
                bound_after(st, gathered, order, order.len()),
            )
        },
{
    lemma_safe_stmts_iff(st, gathered, order, order.len());
    let checked = emitting::safe_stmts(st, gathered, order, order.len());
    let reads = gathered.head_reads;
    let span = cx.ast.span(cx.ast.root().head);
    if checked.safe {
        lemma_check_reads_iff(checked, reads, reads.len(), span);
    } else {
        lemma_unsafe_stays(checked, reads, reads.len(), span);
    }
}

// ---- emitting ---------------------------------------------------------------

/// What emitting keeps: every place is in a register some level fills, and, where
/// nothing is reported, every step reads registers of earlier levels only.
pub open spec fn keeps(s0: St, b0: Built, s1: St, b1: Built) -> bool {
    within(s0, b0.levels) ==> {
        &&& grows(s0, s1)
        &&& within(s1, b1.levels)
        &&& b0.levels <= b1.levels
        &&& s1.reports.len() == s0.reports.len() && program::well_scoped(b0.steps)
            ==> program::well_scoped(b1.steps)
    }
}

pub proof fn lemma_keeps_refl(s: St, b: Built)
    ensures
        keeps(s, b, s, b),
{
    lemma_grows_refl(s);
}

pub proof fn lemma_keeps(s0: St, b0: Built, s1: St, b1: Built, s2: St, b2: Built)
    requires
        keeps(s0, b0, s1, b1),
        keeps(s1, b1, s2, b2),
    ensures
        keeps(s0, b0, s2, b2),
{
    if within(s0, b0.levels) {
        lemma_grows(s0, s1, s2);
    }
}

/// Reporting, and whatever else leaves the places alone, keeps.
pub proof fn lemma_keeps_places(s0: St, s1: St, b: Built)
    requires
        grows(s0, s1),
        s1.bindings == s0.bindings,
        s1.compares == s0.compares,
        s1.fetched == s0.fetched,
    ensures
        keeps(s0, b, s1, b),
{
}

/// What a scan's branches come to: the state is as it was but for reports, what the
/// first branch binds is in register `n` or below, and, where nothing is reported, every
/// source reads outer registers only.
pub open spec fn scans(
    a: St,
    b: St,
    first: Seq<(Symbol, Slot)>,
    sources: Seq<Source>,
    n: nat,
) -> bool {
    within(a, n) ==> {
        &&& grows(a, b)
        &&& b.bindings == a.bindings
        &&& b.compares == a.compares
        &&& b.fetched == a.fetched
        &&& bindings_in(first, n, n + 1)
        &&& b.reports.len() == a.reports.len() ==> program::sources_below(sources, n)
    }
}

/// One more branch.
pub proof fn lemma_scans_branch(
    cx: Cx,
    a: St,
    b: St,
    first: Seq<(Symbol, Slot)>,
    sources: Seq<Source>,
    alt: Alt,
    key_ty: PredicateTy,
    address: Address,
    source: Source,
)
    requires
        scans(a, b, first, sources, address.0 as nat),
        ({
            let seek = model::key(cx, b, alt.key, key_ty, address, Seek::empty()).1;
            seek_below(seek, address.0 as nat) ==> program::source_below(source, address.0 as nat)
        }),
    ensures
        ({
            let walked = model::key(cx, b, alt.key, key_ty, address, Seek::empty()).0;
            let restored = St {
                bindings: walked.bindings.take(a.bindings.len() as int),
                ..walked
            };
            let branch = walked.bindings.skip(a.bindings.len() as int);
            let checked = emitting::reconciled(
                cx,
                restored,
                alt.key,
                first,
                branch,
                branch.len(),
            );
            &&& scans(a, restored, branch, sources.push(source), address.0 as nat)
            &&& scans(a, checked, first, sources.push(source), address.0 as nat)
        }),
{
    let n = address.0 as nat;
    if within(a, n) {
        lemma_walkable(b, n);
        lemma_key_in(cx, b, alt.key, key_ty, address);
        let (walked, seek) = model::key(cx, b, alt.key, key_ty, address, Seek::empty());
        let restored = St { bindings: walked.bindings.take(a.bindings.len() as int), ..walked };
        let branch = walked.bindings.skip(a.bindings.len() as int);
        lemma_grows(a, b, walked);
        assert forall|i: int| 0 <= i < branch.len() implies slot_in(
            (#[trigger] branch[i]).1,
            n,
            n + 1,
        ) by {
            assert(branch[i] == walked.bindings[a.bindings.len() + i]);
        }
        if walked.reports.len() == a.reports.len() {
            let after = sources.push(source);
            assert forall|i: int| 0 <= i < after.len() implies program::source_below(
                #[trigger] after[i],
                n,
            ) by {
                if i < sources.len() {
                    assert(after[i] == sources[i]);
                }
            }
        }
        lemma_reconciled_in(cx, restored, alt.key, first, branch, branch.len());
        lemma_grows(
            a,
            restored,
            emitting::reconciled(cx, restored, alt.key, first, branch, branch.len()),
        );
    }
}

/// Fewer bindings are in the same registers.
pub proof fn lemma_shared_in(
    first: Seq<(Symbol, Slot)>,
    branch: Seq<(Symbol, Slot)>,
    k: nat,
    n: nat,
)
    requires
        k <= first.len(),
    ensures
        bindings_in(first, n, n + 1) ==> bindings_in(
            emitting::shared(first, branch, k),
            n,
            n + 1,
        ),
    decreases k,
{
    if k > 0 {
        lemma_shared_in(first, branch, (k - 1) as nat, n);
    }
}

/// Places in outer registers are where a walk may start.
pub proof fn lemma_walkable(st: St, n: nat)
    requires
        bindings_in(st.bindings, n, n),
        fetched_in(st.fetched, n),
    ensures
        walkable(st, n),
{
    assert forall|i: int| 0 <= i < st.bindings.len() implies slot_in(
        (#[trigger] st.bindings[i]).1,
        n,
        n + 1,
    ) by {
        lemma_slot_in(st.bindings[i].1, n, n, n, n + 1);
    }
}

/// What a negation's branches come to.
pub open spec fn tests(a: St, b: St, sources: Seq<Source>, n: nat) -> bool {
    within(a, n) ==> {
        &&& walks(a, b, n)
        &&& b.reports.len() == a.reports.len() ==> program::sources_below(sources, n)
    }
}

/// One more branch.
pub proof fn lemma_tests_branch(
    cx: Cx,
    a: St,
    b: St,
    sources: Seq<Source>,
    alt: Alt,
    key_ty: PredicateTy,
    address: Address,
    source: Source,
)
    requires
        tests(a, b, sources, address.0 as nat),
        ({
            let seek = model::key(cx, b, alt.key, key_ty, address, Seek::empty()).1;
            seek_below(seek, address.0 as nat) ==> program::source_below(source, address.0 as nat)
        }),
    ensures
        tests(
            a,
            model::key(cx, b, alt.key, key_ty, address, Seek::empty()).0,
            sources.push(source),
            address.0 as nat,
        ),
{
    let n = address.0 as nat;
    if within(a, n) {
        lemma_key_in(cx, b, alt.key, key_ty, address);
        let (walked, seek) = model::key(cx, b, alt.key, key_ty, address, Seek::empty());
        lemma_walks(a, b, walked, n);
        if walked.reports.len() == a.reports.len() {
            let after = sources.push(source);
            assert forall|i: int| 0 <= i < after.len() implies program::source_below(
                #[trigger] after[i],
                n,
            ) by {
                if i < sources.len() {
                    assert(after[i] == sources[i]);
                }
            }
        }
    }
}

/// Following a reference to a register below adds a level that reads outward.
pub proof fn lemma_keeps_fetch(st: St, built: Built, address: Address, path: FieldPath, level: Level)
    requires
        built.wf(),
        built.levels <= usize::MAX,
        address.0 < built.levels ==> program::sources_below(level.sources@, built.levels),
    ensures
        address.0 < built.levels ==> keeps(
            st,
            built,
            St { fetched: st.fetched.push((address, path, built.next())), ..st },
            built.with_level(level),
        ),
{
    lemma_grows_refl(st);
    if address.0 < built.levels && within(st, built.levels) {
        lemma_within(st, built.levels, built.levels + 1);
        let after = st.fetched.push((address, path, built.next()));
        assert forall|i: int| 0 <= i < after.len() implies (#[trigger] after[i]).2.0 < built.levels
            + 1 by {
            if i < st.fetched.len() {
                assert(after[i] == st.fetched[i]);
            }
        }
        if program::well_scoped(built.steps) {
            lemma_scoped_level(built, level);
        }
    }
}

/// A scan's level: what its first branch bound, and its row, are in its own register.
pub proof fn lemma_keeps_scan(
    a: St,
    b: St,
    first: Seq<(Symbol, Slot)>,
    built: Built,
    level: Level,
    after: St,
)
    requires
        built.wf(),
        scans(a, b, first, level.sources@, built.levels),
        after.reports == b.reports,
        after.sealed ==> b.sealed,
        after.compares == b.compares,
        after.fetched == b.fetched,
        after.bindings == b.bindings + first || exists|row: Symbol, predicate: Option<PredicateId>|
            after.bindings == #[trigger] (b.bindings + first).push(
                (row, Slot::Row { address: built.next(), predicate }),
            ),
        built.levels <= usize::MAX,
    ensures
        keeps(a, built, after, built.with_level(level)),
{
    let n = built.levels;
    if within(a, n) {
        lemma_within(b, n, n + 1);
        assert forall|i: int| 0 <= i < after.bindings.len() implies slot_in(
            (#[trigger] after.bindings[i]).1,
            n + 1,
            n + 1,
        ) by {
            if i < b.bindings.len() {
                assert(after.bindings[i] == b.bindings[i]);
                assert(slot_in(b.bindings[i].1, n + 1, n + 1));
            } else if i < b.bindings.len() + first.len() {
                assert(after.bindings[i] == first[i - b.bindings.len()]);
                assert(slot_in(first[i - b.bindings.len()].1, n, n + 1));
            }
        }
        if after.reports.len() == a.reports.len() && program::well_scoped(built.steps) {
            lemma_scoped_level(built, level);
        }
    }
}

/// A negation's test: what its walk bound is taken off again.
pub proof fn lemma_keeps_negation(a: St, b: St, built: Built, sources: Box<[Source]>)
    requires
        built.wf(),
        tests(a, b, sources@, built.levels),
    ensures
        keeps(
            a,
            built,
            (St { bindings: b.bindings.take(a.bindings.len() as int), ..b }),
            built.with_test(Test::Absent(sources)),
        ),
{
    if within(a, built.levels) {
        if b.reports.len() == a.reports.len() && program::well_scoped(built.steps) {
            lemma_scoped_test(built, sources);
        }
    }
}

/// A level with no source keeps.
pub proof fn lemma_keeps_empty(st: St, built: Built, level: Level)
    requires
        built.wf(),
        level.sources@.len() == 0,
    ensures
        keeps(st, built, st, built.with_level(level)),
{
    lemma_grows_refl(st);
    if within(st, built.levels) {
        lemma_within(st, built.levels, built.levels + 1);
        if program::well_scoped(built.steps) {
            lemma_scoped_level(built, level);
        }
    }
}

/// So does a filter, wherever it leaves the body well scoped.
pub proof fn lemma_keeps_filter(st: St, b0: Built, b1: Built)
    requires
        b1.levels == b0.levels,
        within(st, b0.levels) && program::well_scoped(b0.steps) ==> program::well_scoped(b1.steps),
    ensures
        keeps(st, b0, st, b1),
{
    lemma_grows_refl(st);
}

/// A level that reads outer registers keeps the body well scoped.
pub proof fn lemma_scoped_level(built: Built, level: Level)
    requires
        built.wf(),
        program::well_scoped(built.steps),
        program::sources_below(level.sources@, built.levels),
    ensures
        program::well_scoped(built.with_level(level).steps),
{
    let after = built.with_level(level).steps;
    assert forall|i: int| 0 <= i < after.len() implies program::step_below(
        #[trigger] after[i],
        program::level_count(after.take(i)),
    ) by {
        assert(after.take(i) =~= built.steps.take(i));
        if i < built.steps.len() {
            assert(after[i] == built.steps[i]);
        } else {
            assert(built.steps.take(i) =~= built.steps);
        }
    }
}

/// So does a test.
pub proof fn lemma_scoped_test(built: Built, sources: Box<[Source]>)
    requires
        built.wf(),
        program::well_scoped(built.steps),
        program::sources_below(sources@, built.levels),
    ensures
        program::well_scoped(built.with_test(Test::Absent(sources)).steps),
{
    let after = built.with_test(Test::Absent(sources)).steps;
    assert forall|i: int| 0 <= i < after.len() implies program::step_below(
        #[trigger] after[i],
        program::level_count(after.take(i)),
    ) by {
        assert(after.take(i) =~= built.steps.take(i));
        if i < built.steps.len() {
            assert(after[i] == built.steps[i]);
        } else {
            assert(built.steps.take(i) =~= built.steps);
        }
    }
}

} // verus!
