//! Which comparisons, prefixes and branches a plan can hold, and which side of an equation is
//! the value: said of all of them, however many there are.
use vstd::prelude::*;

use super::admitting;
use super::collecting;
use super::emitting;
use super::emitting::Built;
use super::model;
use super::model::{Alias, Alt, Compare, Cx, Slot, St, Stmt};
use crate::schema::{Names, Symbol};
use crate::syntax::{Ast, ExprKind, Literal, NodeId};

verus! {

// ---- comparisons ------------------------------------------------------------

/// Whether two places can be compared: fields of two rows.
pub open spec fn can_compare(compare: Compare) -> bool {
    match (compare.left, compare.right) {
        (Slot::Field { address: left, .. }, Slot::Field { address: right, .. }) => left != right,
        _ => false,
    }
}

proof fn lemma_compared(cx: Cx, st: St, built: Built, compares: Seq<Compare>, k: nat)
    requires
        k <= compares.len(),
    ensures
        ({
            let after = emitting::compared_all(cx, st, built, compares, k).0;
            let good = forall|i: int| 0 <= i < k ==> can_compare(#[trigger] compares[i]);
            &&& good ==> after.reports == st.reports
            &&& !good ==> after.reports.len() > st.reports.len()
        }),
    decreases k,
{
    if k > 0 {
        lemma_compared(cx, st, built, compares, (k - 1) as nat);
        let less = forall|i: int| 0 <= i < k - 1 ==> can_compare(#[trigger] compares[i]);
        let good = forall|i: int| 0 <= i < k ==> can_compare(#[trigger] compares[i]);
        if less && can_compare(compares[k - 1]) {
            assert(good);
        } else if less {
            assert(!good);
        } else {
            let i = choose|i: int| 0 <= i < k - 1 && !can_compare(#[trigger] compares[i]);
            assert(!can_compare(compares[i]));
            assert(!good);
        }
    }
}

/// A comparison is refused where it is not of two fields of two rows, and nowhere else.
pub proof fn law_fields_of_two_rows_can_be_compared(
    cx: Cx,
    st: St,
    built: Built,
    compares: Seq<Compare>,
)
    ensures
        emitting::compared_all(cx, st, built, compares, compares.len()).0.reports == st.reports
            <==> (forall|i: int| 0 <= i < compares.len() ==> can_compare(#[trigger] compares[i])),
{
    lemma_compared(cx, st, built, compares, compares.len());
}

// ---- prefixes ---------------------------------------------------------------

/// Whether a node is a prefix whose text is known.
pub open spec fn is_prefix(ast: Ast, names: Names, node: NodeId) -> bool {
    ast.kind(node) matches ExprKind::Prefix(symbol) && names.text(symbol) is Some
}

/// Whether a variable can be held to a prefix: it has been already, or it is a string, in a
/// field or written down.
pub open spec fn can_hold(cx: Cx, st: St, symbol: Symbol) -> bool {
    st.constrained.contains(symbol) || match model::lookup(st.bindings, symbol) {
        Some(Slot::Field { ty, .. }) => ty is Str,
        Some(Slot::Const(folded)) => cx.ast.kind(folded) matches ExprKind::Lit(Literal::Str(text))
            && st.names.text(text) is Some,
        _ => false,
    }
}

proof fn lemma_constrained(
    cx: Cx,
    st: St,
    built: Built,
    constraints: Seq<(Symbol, NodeId)>,
    k: nat,
)
    requires
        k <= constraints.len(),
        forall|i: int|
            0 <= i < constraints.len() ==> is_prefix(
                cx.ast,
                st.names,
                (#[trigger] constraints[i]).1,
            ),
        forall|symbol: Symbol| #[trigger]
            model::lookup(st.bindings, symbol) matches Some(Slot::Const(folded)) ==> cx.ast.kind(
                folded,
            ) !is Var,
    ensures
        ({
            let after = emitting::constrained_all(cx, st, built, constraints, k).0;
            let good = forall|i: int|
                0 <= i < k ==> can_hold(cx, st, (#[trigger] constraints[i]).0);
            &&& after.bindings == st.bindings && after.constrained == st.constrained && after.names
                == st.names
            &&& good ==> after.reports == st.reports
            &&& !good ==> after.reports.len() > st.reports.len()
        }),
    decreases k,
{
    if k > 0 {
        lemma_constrained(cx, st, built, constraints, (k - 1) as nat);
        let (s1, b1) = emitting::constrained_all(cx, st, built, constraints, (k - 1) as nat);
        let (symbol, pattern) = constraints[k - 1];
        assert(is_prefix(cx.ast, st.names, constraints[k - 1].1));
        assert(can_hold(cx, s1, symbol) == can_hold(cx, st, symbol));
        let less = forall|i: int| 0 <= i < k - 1 ==> can_hold(cx, st, (#[trigger] constraints[i]).0);
        let good = forall|i: int| 0 <= i < k ==> can_hold(cx, st, (#[trigger] constraints[i]).0);
        if less && can_hold(cx, st, symbol) {
            assert(good);
        } else if less {
            assert(!can_hold(cx, st, constraints[k - 1].0));
            assert(!good);
        } else {
            let i = choose|i: int|
                0 <= i < k - 1 && !can_hold(cx, st, (#[trigger] constraints[i]).0);
            assert(!can_hold(cx, st, constraints[i].0));
            assert(!good);
        }
    }
}

/// A variable is held to a prefix where it is a string, and refused nowhere else: however many
/// prefixes there are, and whatever other variables they hold.
pub proof fn law_a_string_can_be_held_to_a_prefix(
    cx: Cx,
    st: St,
    built: Built,
    constraints: Seq<(Symbol, NodeId)>,
)
    requires
        forall|i: int|
            0 <= i < constraints.len() ==> is_prefix(
                cx.ast,
                st.names,
                (#[trigger] constraints[i]).1,
            ),
        forall|symbol: Symbol| #[trigger]
            model::lookup(st.bindings, symbol) matches Some(Slot::Const(folded)) ==> cx.ast.kind(
                folded,
            ) !is Var,
    ensures
        emitting::constrained_all(cx, st, built, constraints, constraints.len()).0.reports
            == st.reports <==> (forall|i: int|
            0 <= i < constraints.len() ==> can_hold(cx, st, (#[trigger] constraints[i]).0)),
{
    lemma_constrained(cx, st, built, constraints, constraints.len());
}

// ---- branches ---------------------------------------------------------------

/// Whether a variable that a branch binds is where the first branch has it, if it does.
pub open spec fn agrees(first: Seq<(Symbol, Slot)>, symbol: Symbol, slot: Slot) -> bool {
    forall|j: int|
        #![trigger first[j]]
        0 <= j < first.len() && first[j].0 == symbol && (forall|i: int|
            0 <= i < j ==> (#[trigger] first[i]).0 != symbol) ==> emitting::same_place(
            first[j].1,
            slot,
        )
}

proof fn lemma_first(first: Seq<(Symbol, Slot)>, symbol: Symbol, i: nat)
    requires
        i <= first.len(),
        forall|j: int| 0 <= j < i ==> (#[trigger] first[j]).0 != symbol,
    ensures
        match emitting::first_slot(first, symbol, i) {
            Some(slot) => exists|j: int|
                #![trigger first[j]]
                0 <= j < first.len() && first[j] == (symbol, slot) && (forall|h: int|
                    0 <= h < j ==> (#[trigger] first[h]).0 != symbol),
            None => forall|j: int| 0 <= j < first.len() ==> (#[trigger] first[j]).0 != symbol,
        },
    decreases first.len() - i,
{
    if i < first.len() {
        if first[i as int].0 == symbol {
            assert(first[i as int] == (symbol, first[i as int].1));
        } else {
            lemma_first(first, symbol, i + 1);
        }
    }
}

proof fn lemma_agrees(first: Seq<(Symbol, Slot)>, symbol: Symbol, slot: Slot)
    ensures
        agrees(first, symbol, slot) == (match emitting::first_slot(first, symbol, 0) {
            Some(bound) => emitting::same_place(bound, slot),
            None => true,
        }),
{
    lemma_first(first, symbol, 0);
    if let Some(bound) = emitting::first_slot(first, symbol, 0) {
        let j = choose|j: int|
            #![trigger first[j]]
            0 <= j < first.len() && first[j] == (symbol, bound) && (forall|h: int|
                0 <= h < j ==> (#[trigger] first[h]).0 != symbol);
        assert(first[j].1 == bound);
        assert forall|i: int|
            #![trigger first[i]]
            0 <= i < first.len() && first[i].0 == symbol && (forall|h: int|
                0 <= h < i ==> (#[trigger] first[h]).0 != symbol) implies i == j by {
            if i < j {
                assert(first[i].0 != symbol);
            }
            if j < i {
                assert(first[j].0 != symbol);
            }
        }
    }
}

proof fn lemma_reconciled(
    cx: Cx,
    st: St,
    at: NodeId,
    first: Seq<(Symbol, Slot)>,
    branch: Seq<(Symbol, Slot)>,
    k: nat,
)
    requires
        k <= branch.len(),
    ensures
        ({
            let after = emitting::reconciled(cx, st, at, first, branch, k);
            let good = forall|i: int|
                0 <= i < k ==> agrees(first, (#[trigger] branch[i]).0, branch[i].1);
            &&& good ==> after.reports == st.reports
            &&& !good ==> after.reports.len() > st.reports.len()
        }),
    decreases k,
{
    if k > 0 {
        lemma_reconciled(cx, st, at, first, branch, (k - 1) as nat);
        lemma_agrees(first, branch[k - 1].0, branch[k - 1].1);
        let less = forall|i: int|
            0 <= i < k - 1 ==> agrees(first, (#[trigger] branch[i]).0, branch[i].1);
        let good = forall|i: int|
            0 <= i < k ==> agrees(first, (#[trigger] branch[i]).0, branch[i].1);
        if less && agrees(first, branch[k - 1].0, branch[k - 1].1) {
            assert(good);
        } else if less {
            assert(!good);
        } else {
            let i = choose|i: int|
                0 <= i < k - 1 && !agrees(first, (#[trigger] branch[i]).0, branch[i].1);
            assert(!agrees(first, branch[i].0, branch[i].1));
            assert(!good);
        }
    }
}

/// A branch is refused where it has a variable in another place than the first branch, and
/// nowhere else.
pub proof fn law_branches_have_their_variables_in_the_same_places(
    cx: Cx,
    st: St,
    at: NodeId,
    first: Seq<(Symbol, Slot)>,
    branch: Seq<(Symbol, Slot)>,
)
    ensures
        emitting::reconciled(cx, st, at, first, branch, branch.len()).reports == st.reports <==> (
        forall|i: int|
            0 <= i < branch.len() ==> agrees(first, (#[trigger] branch[i]).0, branch[i].1)),
{
    lemma_reconciled(cx, st, at, first, branch, branch.len());
}

// ---- equations --------------------------------------------------------------

/// Whether a statement can bind a variable by ranging over facts.
pub open spec fn ranges_bind(cx: Cx, stmt: Stmt, var: Symbol) -> bool {
    stmt matches Stmt::Scan(scan) && (scan.row == Some(var) || exists|i: int|
        0 <= i < scan.alternatives@.len() && admitting::stands_bare(
            cx.ast,
            (#[trigger] scan.alternatives@[i]).key,
            var,
        ))
}

/// Whether any of some statements can.
pub open spec fn any_binds(cx: Cx, stmts: Seq<Stmt>, var: Symbol) -> bool {
    exists|i: int| 0 <= i < stmts.len() && ranges_bind(cx, #[trigger] stmts[i], var)
}

proof fn lemma_alts(cx: Cx, alts: Seq<Alt>, k: nat, var: Symbol)
    requires
        k <= alts.len(),
    ensures
        collecting::alts_captures(cx, alts, k).contains(var) == (exists|i: int|
            0 <= i < k && admitting::stands_bare(cx.ast, (#[trigger] alts[i]).key, var)),
    decreases k,
{
    if k > 0 {
        lemma_alts(cx, alts, (k - 1) as nat, var);
        admitting::lemma_bare(cx, alts[k - 1].key, var);
        admitting::lemma_either(
            collecting::alts_captures(cx, alts, (k - 1) as nat),
            model::bare_variables(cx, alts[k - 1].key),
            var,
        );
    }
}

proof fn lemma_bindable(cx: Cx, stmts: Seq<Stmt>, k: nat, var: Symbol)
    requires
        k <= stmts.len(),
    ensures
        collecting::bindable(cx, stmts, k).contains(var) == (exists|i: int|
            0 <= i < k && ranges_bind(cx, #[trigger] stmts[i], var)),
    decreases k,
{
    if k > 0 {
        lemma_bindable(cx, stmts, (k - 1) as nat, var);
        let before = collecting::bindable(cx, stmts, (k - 1) as nat);
        match stmts[k - 1] {
            Stmt::Scan(scan) => {
                let alts = scan.alternatives@;
                lemma_alts(cx, alts, alts.len(), var);
                let row = match scan.row {
                    Some(row) => seq![row],
                    None => Seq::empty(),
                };
                let keys = collecting::alts_captures(cx, alts, alts.len());
                admitting::lemma_either(row, keys, var);
                admitting::lemma_either(before, row + keys, var);
                if let Some(one) = scan.row {
                    assert(seq![one][0] == one);
                }
            },
            _ => {
                assert(before + Seq::<Symbol>::empty() =~= before);
            },
        }
    }
}

/// Where an equation is between two variables and statements bind one of them alone, that one
/// is the value; every other statement stays as it is.
pub proof fn law_the_bound_side_is_the_value(cx: Cx, stmts: Seq<Stmt>, i: int)
    requires
        0 <= i < stmts.len(),
    ensures
        ({
            let all = collecting::all_oriented(cx, stmts);
            &&& all.len() == stmts.len()
            &&& stmts[i] !is Alias ==> all[i] == stmts[i]
            &&& stmts[i] matches Stmt::Alias(alias) ==> match (
                cx.ast.kind(alias.pattern),
                cx.ast.kind(alias.value),
            ) {
                (ExprKind::Var(left), ExprKind::Var(right)) => if any_binds(cx, stmts, left)
                    && !any_binds(cx, stmts, right) {
                    all[i] == Stmt::Alias(
                        Alias { pattern: alias.value, value: alias.pattern, span: alias.span },
                    )
                } else {
                    all[i] == stmts[i]
                },
                _ => all[i] == stmts[i],
            }
        }),
{
    let bound = collecting::bindable(cx, stmts, stmts.len());
    let all = collecting::all_oriented(cx, stmts);
    assert(all[i] == collecting::oriented(cx, bound, stmts[i]));
    if let Stmt::Alias(alias) = stmts[i] {
        if let ExprKind::Var(left) = cx.ast.kind(alias.pattern) {
            lemma_bindable(cx, stmts, stmts.len(), left);
        }
        if let ExprKind::Var(right) = cx.ast.kind(alias.value) {
            lemma_bindable(cx, stmts, stmts.len(), right);
        }
    }
}

} // verus!
