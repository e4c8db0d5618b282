//! What walking a pattern binds: the variables it is the first to name, each at its place
//! in the row, and nothing else.
use vstd::prelude::*;

use super::matching;
use super::model;
use super::scope;
use super::model::{Cx, Seek, Slot, St};
use crate::iter::Address;
use crate::layout;
use crate::plan::{Fact, FieldPath, Route};
use crate::reading;
use crate::reading::{Place, Sense, World};
use crate::schema::{NameKey, PredicateTy, Symbol};
use crate::syntax::{ExprKind, NodeId};
use crate::tuple;
use crate::tuple::Datum;

verus! {

/// The variables that stand for something are those that are bound.
pub open spec fn senses(sense: Sense, bindings: Seq<(Symbol, Slot)>) -> bool {
    forall|symbol: Symbol|
        (#[trigger] sense(symbol)) is None <==> model::lookup(bindings, symbol) is None
}

/// A variable was taken at a field.
pub open spec fn takes_field(taken: Seq<(Symbol, Place)>, symbol: Symbol) -> bool {
    exists|j: int| 0 <= j < taken.len() && (#[trigger] taken[j]).0 == symbol && taken[j].1 is Field
}

/// The paths to the places that were taken hold their steps.
pub open spec fn places_sealed(taken: Seq<(Symbol, Place)>) -> bool {
    forall|i: int|
        0 <= i < taken.len() ==> ((#[trigger] taken[i]).1 matches Place::Field(path, _)
            ==> FieldPath::sealed(path.top(), path.inner()))
}

/// No variable is taken twice.
pub open spec fn distinct(taken: Seq<(Symbol, Place)>) -> bool {
    forall|i: int, j: int|
        0 <= i < taken.len() && 0 <= j < taken.len() && (#[trigger] taken[i]).0 == (
        #[trigger] taken[j]).0 ==> i == j
}

/// What is taken is not bound yet.
pub open spec fn unbound(bindings: Seq<(Symbol, Slot)>, taken: Seq<(Symbol, Place)>) -> bool {
    forall|i: int|
        0 <= i < taken.len() ==> model::lookup(bindings, (#[trigger] taken[i]).0) is None
}

/// A walk that took some variables, and changed nothing else but for which constraints
/// have been applied: those of variables it took.
pub open spec fn took(s: St, after: St, here: Address, taken: Seq<(Symbol, Place)>) -> bool {
    &&& places_sealed(taken)
    &&& distinct(taken)
    &&& unbound(s.bindings, taken)
    &&& after.bindings == s.bindings + matching::slots_at(here, taken)
    &&& after.compares == s.compares
    &&& after.hoisted == s.hoisted
    &&& after.fetched == s.fetched
    &&& after.constraints == s.constraints
    &&& after.names == s.names
    &&& after.reports.len() == s.reports.len()
    &&& s.constrained.len() <= after.constrained.len()
    &&& after.constrained.take(s.constrained.len() as int) == s.constrained
    &&& forall|i: int|
        s.constrained.len() <= i < after.constrained.len() ==> takes_field(
            taken,
            #[trigger] after.constrained[i],
        ) && model::patterns_of(s.constraints, after.constrained[i]).len() > 0
}

/// What a walk stands on.
pub open spec fn standing(
    w: World,
    sense: Sense,
    bindings: Seq<(Symbol, Slot)>,
    s: St,
    here: Address,
) -> bool {
    &&& senses(sense, bindings)
    &&& matching::captures_only(bindings, s.bindings, here)
}

proof fn lemma_took_none(s: St, after: St, here: Address)
    requires
        after.bindings == s.bindings,
        after.compares == s.compares,
        after.hoisted == s.hoisted,
        after.fetched == s.fetched,
        after.constraints == s.constraints,
        after.constrained == s.constrained,
        after.names == s.names,
        after.reports.len() == s.reports.len(),
    ensures
        took(s, after, here, Seq::empty()),
{
    assert(after.bindings =~= s.bindings + matching::slots_at(here, Seq::empty()));
    assert(after.constrained.take(s.constrained.len() as int) =~= s.constrained);
}

/// What is not bound once some places are taken is none of them.
proof fn lemma_still_unbound(
    bindings: Seq<(Symbol, Slot)>,
    here: Address,
    taken: Seq<(Symbol, Place)>,
    symbol: Symbol,
)
    requires
        model::lookup(bindings + matching::slots_at(here, taken), symbol) is None,
    ensures
        model::lookup(bindings, symbol) is None,
        forall|i: int| 0 <= i < taken.len() ==> (#[trigger] taken[i]).0 != symbol,
    decreases taken.len(),
{
    let more = bindings + matching::slots_at(here, taken);
    if taken.len() == 0 {
        assert(more =~= bindings);
    } else {
        let shorter = taken.drop_last();
        assert(more.drop_last() =~= bindings + matching::slots_at(here, shorter));
        assert(more.last() == (taken.last().0, matching::slot_at(here, taken.last().1)));
        lemma_still_unbound(bindings, here, shorter, symbol);
        assert forall|i: int| 0 <= i < taken.len() implies (#[trigger] taken[i]).0 != symbol by {
            if i < shorter.len() {
                assert(taken[i] == shorter[i]);
            }
        }
    }
}

#[verifier::rlimit(30)]
proof fn lemma_took(
    a: St,
    b: St,
    c: St,
    here: Address,
    first: Seq<(Symbol, Place)>,
    second: Seq<(Symbol, Place)>,
)
    requires
        took(a, b, here, first),
        took(b, c, here, second),
    ensures
        took(a, c, here, first + second),
{
    let both = first + second;
    assert forall|i: int| 0 <= i < both.len() implies ((#[trigger] both[i]).1 matches Place::Field(
        path,
        _,
    ) ==> FieldPath::sealed(path.top(), path.inner())) by {
        if i < first.len() {
            assert(both[i] == first[i]);
        } else {
            assert(both[i] == second[i - first.len()]);
        }
    }
    assert forall|j: int| 0 <= j < second.len() implies model::lookup(
        a.bindings,
        (#[trigger] second[j]).0,
    ) is None && forall|i: int| 0 <= i < first.len() ==> (#[trigger] first[i]).0 != second[j].0 by {
        lemma_still_unbound(a.bindings, here, first, second[j].0);
    }
    assert forall|i: int| 0 <= i < both.len() implies model::lookup(
        a.bindings,
        (#[trigger] both[i]).0,
    ) is None by {
        if i < first.len() {
            assert(both[i] == first[i]);
        } else {
            assert(both[i] == second[i - first.len()]);
        }
    }
    assert forall|i: int, j: int|
        0 <= i < both.len() && 0 <= j < both.len() && (#[trigger] both[i]).0 == (
        #[trigger] both[j]).0 implies i == j by {
        if i < first.len() {
            assert(both[i] == first[i]);
        } else {
            assert(both[i] == second[i - first.len()]);
        }
        if j < first.len() {
            assert(both[j] == first[j]);
        } else {
            assert(both[j] == second[j - first.len()]);
        }
    }
    assert(c.bindings =~= a.bindings + matching::slots_at(here, both));
    assert(c.constrained.take(a.constrained.len() as int) =~= c.constrained.take(
        b.constrained.len() as int,
    ).take(a.constrained.len() as int));
    assert forall|i: int| a.constrained.len() <= i < c.constrained.len() implies takes_field(
        both,
        #[trigger] c.constrained[i],
    ) && model::patterns_of(a.constraints, c.constrained[i]).len() > 0 by {
        if i < b.constrained.len() {
            assert(c.constrained.take(b.constrained.len() as int)[i] == b.constrained[i]);
            assert(takes_field(first, b.constrained[i]));
            let j = choose|j: int|
                0 <= j < first.len() && (#[trigger] first[j]).0 == b.constrained[i]
                    && first[j].1 is Field;
            assert(both[j] == first[j]);
        } else {
            let j = choose|j: int|
                0 <= j < second.len() && (#[trigger] second[j]).0 == c.constrained[i]
                    && second[j].1 is Field;
            assert(both[first.len() + j] == second[j]);
        }
    }
}

/// What is taken stands for nothing yet.
pub proof fn lemma_takes_fresh(
    w: World,
    sense: Sense,
    node: NodeId,
    ty: PredicateTy,
    path: Route,
)
    ensures
        forall|i: int|
            0 <= i < reading::takes(w, sense, node, ty, path).len() ==> sense(
                (#[trigger] reading::takes(w, sense, node, ty, path)[i]).0,
            ) is None,
    decreases node.0, 1nat, 0nat,
{
    if let (ExprKind::Record(fields), PredicateTy::Record(tys)) = (w.cx.ast.kind(node), ty) {
        lemma_takes_fields_fresh(w, sense, node, fields@, tys@, tys@.len(), path);
    }
}

proof fn lemma_takes_fields_fresh(
    w: World,
    sense: Sense,
    node: NodeId,
    fields: Seq<(Symbol, NodeId)>,
    tys: Seq<(NameKey, PredicateTy)>,
    k: nat,
    path: Route,
)
    ensures
        forall|i: int|
            0 <= i < reading::takes_fields(w, sense, node, fields, tys, k, path).len() ==> sense(
                (#[trigger] reading::takes_fields(w, sense, node, fields, tys, k, path)[i]).0,
            ) is None,
    decreases node.0, 0nat, k,
{
    if k > 0 {
        lemma_takes_fields_fresh(w, sense, node, fields, tys, (k - 1) as nat, path);
        if let Some(inner) = model::field_pattern(fields, Symbol::Schema(tys[k - 1].0)) {
            if model::below(w.cx, node, inner) {
                lemma_takes_fresh(
                    w,
                    sense,
                    inner,
                    tys[k - 1].1,
                    Route::of(path.top(), path.inner().push((k - 1) as usize)),
                );
            }
        }
    }
}

proof fn lemma_takes_top_fresh(
    w: World,
    sense: Sense,
    fields: Seq<(Symbol, NodeId)>,
    tys: Seq<(NameKey, PredicateTy)>,
    k: nat,
)
    ensures
        forall|i: int|
            0 <= i < reading::takes_top(w, sense, fields, tys, k).len() ==> sense(
                (#[trigger] reading::takes_top(w, sense, fields, tys, k)[i]).0,
            ) is None,
    decreases k,
{
    if k > 0 {
        lemma_takes_top_fresh(w, sense, fields, tys, (k - 1) as nat);
        if let Some(inner) = model::field_pattern(fields, Symbol::Schema(tys[k - 1].0)) {
            lemma_takes_fresh(
                w,
                sense,
                inner,
                tys[k - 1].1,
                Route::of((k - 1) as usize, Seq::empty()),
            );
        }
    }
}

/// What a key pattern takes stands for nothing yet.
pub proof fn lemma_key_fresh(w: World, sense: Sense, node: NodeId, ty: PredicateTy)
    ensures
        forall|i: int|
            0 <= i < reading::takes_key(w, sense, node, ty).len() ==> sense(
                (#[trigger] reading::takes_key(w, sense, node, ty)[i]).0,
            ) is None,
{
    match (ty, w.cx.ast.kind(node)) {
        (PredicateTy::Record(tys), ExprKind::Record(fields)) => lemma_takes_top_fresh(
            w,
            sense,
            fields@,
            tys@,
            tys@.len(),
        ),
        (PredicateTy::Record(_), _) => {},
        _ => lemma_takes_fresh(w, sense, node, ty, Route::of(0, Seq::empty())),
    }
}

/// Taking what stood for nothing leaves a walk where it can go on.
proof fn lemma_standing(
    w: World,
    sense: Sense,
    bindings: Seq<(Symbol, Slot)>,
    s: St,
    after: St,
    here: Address,
    taken: Seq<(Symbol, Place)>,
)
    requires
        standing(w, sense, bindings, s, here),
        took(s, after, here, taken),
        forall|i: int| 0 <= i < taken.len() ==> sense((#[trigger] taken[i]).0) is None,
    ensures
        standing(w, sense, bindings, after, here),
{
    let more = matching::slots_at(here, taken);
    assert(after.bindings.take(bindings.len() as int) =~= s.bindings.take(bindings.len() as int));
    assert forall|i: int| bindings.len() <= i < after.bindings.len() implies matching::at_here(
        (#[trigger] after.bindings[i]).1,
        here,
    ) && model::lookup(bindings, after.bindings[i].0) is None by {
        if i < s.bindings.len() {
            assert(after.bindings[i] == s.bindings[i]);
        } else {
            let j = i - s.bindings.len();
            assert(after.bindings[i] == more[j]);
            assert(sense(taken[j].0) is None);
        }
    }
}

proof fn lemma_constrain_took(
    cx: Cx,
    s: St,
    patterns: Seq<NodeId>,
    k: nat,
    ty: PredicateTy,
    path: FieldPath,
    level: Seek,
)
    requires
        scope::clean(s, model::constrain_each(cx, s, patterns, k, ty, path, level).0),
    ensures
        model::constrain_each(cx, s, patterns, k, ty, path, level).0 == s,
    decreases k,
{
    if k > 0 {
        matching::lemma_constrain_reports(cx, s, patterns, (k - 1) as nat, ty, path, level);
        lemma_constrain_took(cx, s, patterns, (k - 1) as nat, ty, path, level);
    }
}

proof fn lemma_matched_took(
    w: World,
    sense: Sense,
    bindings: Seq<(Symbol, Slot)>,
    s: St,
    node: NodeId,
    slot: Slot,
    ty: PredicateTy,
    here: Address,
    path: FieldPath,
    level: Seek,
)
    requires
        standing(w, sense, bindings, s, here),
        scope::clean(s, model::matched(w.cx, s, node, slot, ty, here, path, level).0),
    ensures
        !matching::at_here(slot, here),
        took(
            s,
            model::matched(w.cx, s, node, slot, ty, here, path, level).0,
            here,
            Seq::empty(),
        ),
    decreases
            0nat,
            (match slot {
                Slot::Const(folded) => folded.0 as nat,
                _ => 0,
            }),
            2nat,
            0nat,
{
    lemma_took_none(s, s, here);
    if let Slot::Const(folded) = slot {
        if model::constant(w.cx, s, folded, ty) is None && w.cx.ast.constant(folded) {
            lemma_partial_took(w, sense, bindings, s, folded, ty, here, path, level);
            matching::lemma_constant_takes(w, sense, folded, ty, path@);
        }
    }
}

proof fn lemma_partial_took(
    w: World,
    sense: Sense,
    bindings: Seq<(Symbol, Slot)>,
    s: St,
    node: NodeId,
    ty: PredicateTy,
    here: Address,
    path: FieldPath,
    level: Seek,
)
    requires
        standing(w, sense, bindings, s, here),
        w.cx.ast.kind(node) !is Var,
        scope::clean(s, model::partial(w.cx, s, node, ty, here, path, level).0),
    ensures
        took(
            s,
            model::partial(w.cx, s, node, ty, here, path, level).0,
            here,
            reading::takes(w, sense, node, ty, path@),
        ),
    decreases model::rank(w.cx, node), node.0, 1nat, 0nat,
{
    lemma_took_none(s, s, here);
    if let (ExprKind::Record(fields), PredicateTy::Record(tys)) = (w.cx.ast.kind(node), ty) {
        lemma_partial_fields_took(
            w,
            sense,
            bindings,
            s,
            node,
            fields@,
            tys@,
            tys@.len(),
            here,
            path,
            level.closed(),
        );
    }
}

#[verifier::rlimit(30)]
proof fn lemma_partial_fields_took(
    w: World,
    sense: Sense,
    bindings: Seq<(Symbol, Slot)>,
    s: St,
    node: NodeId,
    fields: Seq<(Symbol, NodeId)>,
    tys: Seq<(NameKey, PredicateTy)>,
    k: nat,
    here: Address,
    path: FieldPath,
    level: Seek,
)
    requires
        standing(w, sense, bindings, s, here),
        scope::clean(s, model::partial_fields(
            w.cx,
            s,
            node,
            fields,
            tys,
            k,
            here,
            path,
            level,
        ).0),
    ensures
        took(
            s,
            model::partial_fields(w.cx, s, node, fields, tys, k, here, path, level).0,
            here,
            reading::takes_fields(w, sense, node, fields, tys, k, path@),
        ),
    decreases model::rank(w.cx, node), node.0, 0nat, k,
{
    lemma_took_none(s, s, here);
    if k > 0 {
        let j = (k - 1) as nat;
        let (s1, l1) = model::partial_fields(
            w.cx,
            s,
            node,
            fields,
            tys,
            j,
            here,
            path,
            level,
        );
        let first = reading::takes_fields(w, sense, node, fields, tys, j, path@);
        let inner = FieldPath::of(path.top(), path.inner().push((k - 1) as usize));
        matching::lemma_partial_fields_grow(w.cx, s, node, fields, tys, j, here, path, level);
        match model::field_pattern(fields, Symbol::Schema(tys[k - 1].0)) {
            Some(piece) => if model::below(w.cx, node, piece) {
                let steps = path.inner().push((k - 1) as usize);
                let held = s1.sealing(FieldPath::sealed(path.top(), steps));
                matching::lemma_field_grows(w.cx, held, piece, tys[k - 1].1, here, inner, l1);
                assert(held == s1);
                FieldPath::lemma_of(path.top(), steps);
                lemma_partial_fields_took(
                    w,
                    sense,
                    bindings,
                    s,
                    node,
                    fields,
                    tys,
                    j,
                    here,
                    path,
                    level,
                );
                lemma_takes_fields_fresh(w, sense, node, fields, tys, j, path@);
                lemma_standing(w, sense, bindings, s, s1, here, first);
                lemma_field_took(
                    w,
                    sense,
                    bindings,
                    s1,
                    piece,
                    tys[k - 1].1,
                    here,
                    inner,
                    l1,
                );
                lemma_took(
                    s,
                    s1,
                    model::field(w.cx, s1, piece, tys[k - 1].1, here, inner, l1).0,
                    here,
                    first,
                    reading::takes(w, sense, piece, tys[k - 1].1, inner@),
                );
            } else {
                lemma_partial_fields_took(
                    w,
                    sense,
                    bindings,
                    s,
                    node,
                    fields,
                    tys,
                    j,
                    here,
                    path,
                    level,
                );
                assert(first + Seq::<(Symbol, Place)>::empty() =~= first);
            },
            None => {
                lemma_partial_fields_took(
                    w,
                    sense,
                    bindings,
                    s,
                    node,
                    fields,
                    tys,
                    j,
                    here,
                    path,
                    level,
                );
                assert(first + Seq::<(Symbol, Place)>::empty() =~= first);
            },
        }
    }
}

/// Walking one field takes what its pattern is the first to name.
#[verifier::rlimit(30)]
pub proof fn lemma_field_took(
    w: World,
    sense: Sense,
    bindings: Seq<(Symbol, Slot)>,
    s: St,
    node: NodeId,
    ty: PredicateTy,
    here: Address,
    path: FieldPath,
    level: Seek,
)
    requires
        standing(w, sense, bindings, s, here),
        scope::clean(s, model::field(w.cx, s, node, ty, here, path, level).0),
    ensures
        took(
            s,
            model::field(w.cx, s, node, ty, here, path, level).0,
            here,
            reading::takes(w, sense, node, ty, path@),
        ),
    decreases model::rank(w.cx, node), node.0, 3nat, 0nat,
{
    lemma_took_none(s, s, here);
    match w.cx.ast.kind(node) {
        ExprKind::Wildcard | ExprKind::Prefix(_) | ExprKind::Disjunction(_) | ExprKind::Never => {},
        kind => if kind is Var && model::lookup(s.bindings, kind->Var_0) is None {
            let symbol = kind->Var_0;
            matching::lemma_lookup_follows(bindings, s.bindings, here, symbol);
            assert(sense(symbol) is None);
            let bound = s.binding(symbol, Slot::Field { address: here, path, ty });
            path.lemma_again();
            let taken = seq![(symbol, Place::Field(path@, ty))];
            let after = model::field(w.cx, s, node, ty, here, path, level).0;
            let patterns = model::patterns_of(bound.constraints, symbol);
            let marked = St { constrained: bound.constrained.push(symbol), ..bound };
            if patterns.len() > 0 {
                lemma_constrain_took(w.cx, marked, patterns, patterns.len(), ty, path, level);
            }
            assert(after.bindings =~= s.bindings + matching::slots_at(here, taken));
            assert(after.constrained.take(s.constrained.len() as int) =~= s.constrained);
            assert(taken[0].0 == symbol && taken[0].1 is Field);
            assert(takes_field(taken, symbol));
        } else {
            matching::lemma_resolve_only(w.cx, s, node);
            matching::lemma_resolve_smaller(w.cx, s, node);
            if kind is Var {
                matching::lemma_lookup_follows(bindings, s.bindings, here, kind->Var_0);
                let symbol = kind->Var_0;
                assert(sense(symbol) is None <==> model::lookup(bindings, symbol) is None);
            }
            let (s1, found) = model::resolve(w.cx, s, node);
            match found {
                Some(slot) => {
                    matching::lemma_matched_grows(w.cx, s1, node, slot, ty, here, path, level);
                    lemma_matched_took(
                        w,
                        sense,
                        bindings,
                        s1,
                        node,
                        slot,
                        ty,
                        here,
                        path,
                        level,
                    );
                    if w.cx.ast.constant(node) {
                        matching::lemma_constant_takes(w, sense, node, ty, path@);
                    }
                },
                None => if kind is Record {
                    matching::lemma_partial_grows(w.cx, s1, node, ty, here, path, level);
                    lemma_partial_took(w, sense, bindings, s1, node, ty, here, path, level);
                },
            }
        },
    }
}

proof fn lemma_key_fields_took(
    w: World,
    sense: Sense,
    bindings: Seq<(Symbol, Slot)>,
    s: St,
    fields: Seq<(Symbol, NodeId)>,
    tys: Seq<(NameKey, PredicateTy)>,
    k: nat,
    here: Address,
    level: Seek,
)
    requires
        standing(w, sense, bindings, s, here),
        scope::clean(s, model::key_fields(w.cx, s, fields, tys, k, here, level).0),
    ensures
        took(
            s,
            model::key_fields(w.cx, s, fields, tys, k, here, level).0,
            here,
            reading::takes_top(w, sense, fields, tys, k),
        ),
    decreases k,
{
    lemma_took_none(s, s, here);
    if k > 0 {
        let j = (k - 1) as nat;
        let (s1, l1) = model::key_fields(w.cx, s, fields, tys, j, here, level);
        let first = reading::takes_top(w, sense, fields, tys, j);
        let path = FieldPath::of((k - 1) as usize, Seq::empty());
        matching::lemma_key_fields_grow(w.cx, s, fields, tys, j, here, level);
        match model::field_pattern(fields, Symbol::Schema(tys[k - 1].0)) {
            Some(pattern) => {
                let held = s1.sealing(FieldPath::sealed((k - 1) as usize, Seq::empty()));
                matching::lemma_field_grows(w.cx, held, pattern, tys[k - 1].1, here, path, l1);
                assert(held == s1);
                FieldPath::lemma_of((k - 1) as usize, Seq::empty());
                lemma_key_fields_took(w, sense, bindings, s, fields, tys, j, here, level);
                lemma_takes_top_fresh(w, sense, fields, tys, j);
                lemma_standing(w, sense, bindings, s, s1, here, first);
                lemma_field_took(
                    w,
                    sense,
                    bindings,
                    s1,
                    pattern,
                    tys[k - 1].1,
                    here,
                    path,
                    l1,
                );
                lemma_took(
                    s,
                    s1,
                    model::field(w.cx, s1, pattern, tys[k - 1].1, here, path, l1).0,
                    here,
                    first,
                    reading::takes(w, sense, pattern, tys[k - 1].1, path@),
                );
            },
            None => {
                lemma_key_fields_took(w, sense, bindings, s, fields, tys, j, here, level);
                assert(first + Seq::<(Symbol, Place)>::empty() =~= first);
            },
        }
    }
}

proof fn lemma_whole_fields_took(
    w: World,
    sense: Sense,
    bindings: Seq<(Symbol, Slot)>,
    s: St,
    node: NodeId,
    slot: Slot,
    tys: Seq<(NameKey, PredicateTy)>,
    k: nat,
    here: Address,
    level: Seek,
)
    requires
        standing(w, sense, bindings, s, here),
        scope::clean(s, model::whole_fields(w.cx, s, node, slot, tys, k, here, level).0),
    ensures
        took(
            s,
            model::whole_fields(w.cx, s, node, slot, tys, k, here, level).0,
            here,
            Seq::empty(),
        ),
    decreases k,
{
    lemma_took_none(s, s, here);
    if k > 0 {
        let j = (k - 1) as nat;
        let none = Seq::<(Symbol, Place)>::empty();
        let name = Symbol::Schema(tys[k - 1].0);
        let path = FieldPath::of((k - 1) as usize, Seq::empty());
        let (s1, l1) = model::whole_fields(w.cx, s, node, slot, tys, j, here, level);
        let (s2, found) = model::field_slot(w.cx, s1, node, slot, name);
        matching::lemma_whole_fields_grow(w.cx, s, node, slot, tys, j, here, level);
        matching::lemma_field_slot_only(w.cx, s1, node, slot, name);
        if let Some(inner) = found {
            let held = s2.sealing(FieldPath::sealed((k - 1) as usize, Seq::empty()));
            matching::lemma_matched_grows(w.cx, held, node, inner, tys[k - 1].1, here, path, l1);
            assert(held == s2);
        }
        lemma_whole_fields_took(w, sense, bindings, s, node, slot, tys, j, here, level);
        lemma_standing(w, sense, bindings, s, s1, here, none);
        lemma_took_none(s1, s2, here);
        lemma_took(s, s1, s2, here, none, none);
        assert(none + none =~= none);
        if let Some(inner) = found {
            lemma_matched_took(
                w,
                sense,
                bindings,
                s2,
                node,
                inner,
                tys[k - 1].1,
                here,
                path,
                l1,
            );
            lemma_took(
                s,
                s2,
                model::matched(w.cx, s2, node, inner, tys[k - 1].1, here, path, l1).0,
                here,
                none,
                none,
            );
        }
    }
}

/// Walking a key takes what its pattern is the first to name.
#[verifier::rlimit(30)]
pub proof fn lemma_key_took(
    w: World,
    sense: Sense,
    s: St,
    node: NodeId,
    ty: PredicateTy,
    here: Address,
)
    requires
        senses(sense, s.bindings),
        scope::clean(s, model::key(w.cx, s, node, ty, here, Seek::empty()).0),
    ensures
        took(
            s,
            model::key(w.cx, s, node, ty, here, Seek::empty()).0,
            here,
            reading::takes_key(w, sense, node, ty),
        ),
{
    let level = Seek::empty();
    let bindings = s.bindings;
    assert(bindings.take(bindings.len() as int) =~= bindings);
    assert(standing(w, sense, bindings, s, here));
    lemma_took_none(s, s, here);
    match (ty, w.cx.ast.kind(node)) {
        (PredicateTy::Record(tys), ExprKind::Record(fields)) => lemma_key_fields_took(
            w,
            sense,
            bindings,
            s,
            fields@,
            tys@,
            tys@.len(),
            here,
            level,
        ),
        (PredicateTy::Record(tys), ExprKind::Wildcard) => {},
        (PredicateTy::Record(tys), kind) => {
            if kind is Var {
                let symbol = kind->Var_0;
                assert(sense(symbol) is None <==> model::lookup(bindings, symbol) is None);
            }
            if kind is Var && model::lookup(bindings, kind->Var_0) is None {
                let taken = seq![(kind->Var_0, Place::Key(ty))];
                let after = s.binding(kind->Var_0, Slot::Key { address: here, ty });
                assert(after.bindings =~= s.bindings + matching::slots_at(here, taken));
                assert(after.constrained.take(s.constrained.len() as int) =~= s.constrained);
            } else {
                matching::lemma_resolve_only(w.cx, s, node);
                let (s1, found) = model::resolve(w.cx, s, node);
                if let Some(slot) = found {
                    matching::lemma_whole_fields_grow(
                        w.cx,
                        s1,
                        node,
                        slot,
                        tys@,
                        tys@.len(),
                        here,
                        level,
                    );
                    lemma_whole_fields_took(
                        w,
                        sense,
                        bindings,
                        s1,
                        node,
                        slot,
                        tys@,
                        tys@.len(),
                        here,
                        level,
                    );
                }
            }
        },
        _ => {
            let path = FieldPath::of(0, Seq::empty());
            let held = s.sealing(FieldPath::sealed(0, Seq::empty()));
            matching::lemma_field_grows(w.cx, held, node, ty, here, path, level);
            assert(held == s);
            FieldPath::lemma_of(0, Seq::empty());
            lemma_field_took(w, sense, bindings, s, node, ty, here, path, level);
        },
    }
}

/// A walk takes no report back.
pub proof fn lemma_key_grows(cx: Cx, s: St, node: NodeId, ty: PredicateTy, here: Address)
    ensures
        scope::further(s, model::key(cx, s, node, ty, here, Seek::empty()).0),
{
    let level = Seek::empty();
    match (ty, cx.ast.kind(node)) {
        (PredicateTy::Record(tys), ExprKind::Record(fields)) => matching::lemma_key_fields_grow(
            cx,
            s,
            fields@,
            tys@,
            tys@.len(),
            here,
            level,
        ),
        (PredicateTy::Record(tys), _) => {
            matching::lemma_resolve_only(cx, s, node);
            let (s1, found) = model::resolve(cx, s, node);
            if let Some(slot) = found {
                matching::lemma_whole_fields_grow(
                    cx,
                    s1,
                    node,
                    slot,
                    tys@,
                    tys@.len(),
                    here,
                    level,
                );
            }
        },
        _ => matching::lemma_field_grows(
            cx,
            s.sealing(FieldPath::sealed(0, Seq::empty())),
            node,
            ty,
            here,
            FieldPath::of(0, Seq::empty()),
            level,
        ),
    }
}

// ---- what is taken is there -------------------------------------------------

/// A place a variable was taken at holds a value of its type, and where the pattern
/// matches, one that is allowed.
pub open spec fn there(
    w: World,
    fact: Fact,
    one: (Symbol, Place),
    matches: bool,
) -> bool {
    &&& match one.1 {
        Place::Key(ty) => matching::keyed(w.names, fact, ty),
        Place::Field(path, ty) => matching::leads(w.names, fact, path, ty),
    }
    &&& matches && one.1 is Field ==> exists|d: Datum|
        #[trigger] layout::holds_at(fact.key(), one.1->Field_0, d) && tuple::fits(
            w.names,
            d,
            one.1->Field_1,
        ) && reading::allowed(w, one.0, d)
}

/// All of them.
pub open spec fn all_there(
    w: World,
    fact: Fact,
    taken: Seq<(Symbol, Place)>,
    matches: bool,
) -> bool {
    forall|i: int|
        0 <= i < taken.len() ==> there(w, fact, #[trigger] taken[i], matches)
}

/// What a value is known by.
pub open spec fn at_place(
    w: World,
    fact: Fact,
    ty: PredicateTy,
    path: Route,
    v: Datum,
) -> bool {
    &&& layout::holds_at(fact.key(), path, v)
    &&& tuple::fits(w.names, v, ty)
}

proof fn lemma_takes_there(
    w: World,
    sense: Sense,
    fact: Fact,
    node: NodeId,
    ty: PredicateTy,
    path: Route,
    v: Datum,
    matches: bool,
)
    requires
        at_place(w, fact, ty, path, v),
        matches ==> reading::means(w, sense, node, ty, v),
    ensures
        all_there(
            w,
            fact,
            reading::takes(w, sense, node, ty, path),
            matches,
        ),
        forall|i: int|
            0 <= i < reading::takes(w, sense, node, ty, path).len() ==> (
            #[trigger] reading::takes(w, sense, node, ty, path)[i]).1 is Field,
    decreases node.0, 1nat, 0nat,
{
    match (w.cx.ast.kind(node), ty) {
        (ExprKind::Var(symbol), _) => if sense(symbol) is None {
            assert(matching::leads(w.names, fact, path, ty));
            let one = (symbol, Place::Field(path, ty));
            if matches {
                assert(layout::holds_at(fact.key(), one.1->Field_0, v) && tuple::fits(
                    w.names,
                    v,
                    one.1->Field_1,
                ) && reading::allowed(w, one.0, v));
            }
            assert(there(w, fact, one, matches));
        },
        (ExprKind::Record(fields), PredicateTy::Record(tys)) => lemma_takes_fields_there(
            w,
            sense,
            fact,
            node,
            fields@,
            ty,
            tys@.len(),
            path,
            v,
            matches,
        ),
        _ => {},
    }
}

#[verifier::rlimit(30)]
proof fn lemma_takes_fields_there(
    w: World,
    sense: Sense,
    fact: Fact,
    node: NodeId,
    fields: Seq<(Symbol, NodeId)>,
    ty: PredicateTy,
    k: nat,
    path: Route,
    v: Datum,
    matches: bool,
)
    requires
        at_place(w, fact, ty, path, v),
        ty is Record,
        k <= ty->Record_0@.len(),
        matches ==> reading::means_fields(
            w,
            sense,
            node,
            fields,
            ty->Record_0@,
            v->Record_0,
            k,
        ),
    ensures
        all_there(
            w,
            fact,
            reading::takes_fields(w, sense, node, fields, ty->Record_0@, k, path),
            matches,
        ),
        forall|i: int|
            0 <= i < reading::takes_fields(
                w,
                sense,
                node,
                fields,
                ty->Record_0@,
                k,
                path,
            ).len() ==> (#[trigger] reading::takes_fields(
                w,
                sense,
                node,
                fields,
                ty->Record_0@,
                k,
                path,
            )[i]).1 is Field,
    decreases node.0, 0nat, k,
{
    let tys = ty->Record_0;
    if k > 0 {
        let j = (k - 1) as nat;
        lemma_takes_fields_there(
            w,
            sense,
            fact,
            node,
            fields,
            ty,
            j,
            path,
            v,
            matches,
        );
        if let Some(piece) = model::field_pattern(fields, Symbol::Schema(tys@[k - 1].0)) {
            if model::below(w.cx, node, piece) {
                let idx = (k - 1) as usize;
                assert(tys.len() == tys@.len());
                let steps = path.inner().push(idx);
                let inner = Route::of(path.top(), steps);
                layout::lemma_deeper(fact.key(), path, v, inner, idx);
                lemma_takes_there(
                    w,
                    sense,
                    fact,
                    piece,
                    tys@[k - 1].1,
                    inner,
                    v->Record_0[k - 1].1,
                    matches,
                );
            }
        }
    }
}

proof fn lemma_takes_top_there(
    w: World,
    sense: Sense,
    fact: Fact,
    node: NodeId,
    ty: PredicateTy,
    k: nat,
    v: Datum,
    matches: bool,
)
    requires
        w.cx.ast.wf(),
        w.cx.ast.has(node),
        w.cx.ast.kind(node) is Record,
        layout::key_is(w.names, fact.key(), ty, v),
        ty is Record,
        k <= ty->Record_0@.len(),
        matches ==> reading::means_fields(
            w,
            sense,
            node,
            w.cx.ast.kind(node)->Record_0@,
            ty->Record_0@,
            v->Record_0,
            k,
        ),
    ensures
        ({
            let fields = w.cx.ast.kind(node)->Record_0@;
            let taken = reading::takes_top(w, sense, fields, ty->Record_0@, k);
            &&& all_there(w, fact, taken, matches)
            &&& forall|i: int| 0 <= i < taken.len() ==> (#[trigger] taken[i]).1 is Field
        }),
    decreases k,
{
    let fields = w.cx.ast.kind(node)->Record_0@;
    let tys = ty->Record_0;
    if k > 0 {
        let j = (k - 1) as nat;
        lemma_takes_top_there(w, sense, fact, node, ty, j, v, matches);
        let name = Symbol::Schema(tys@[k - 1].0);
        matching::lemma_below(w.cx, node, name);
        if let Some(piece) = model::field_pattern(fields, name) {
            let none = Seq::<usize>::empty();
            assert(tys.len() == tys@.len());
            let path = Route::of((k - 1) as usize, none);
            layout::lemma_top(fact.key(), v, path);
            lemma_takes_there(
                w,
                sense,
                fact,
                piece,
                tys@[k - 1].1,
                path,
                v->Record_0[k - 1].1,
                matches,
            );
        }
    }
}

/// What a key pattern takes of a fact is there.
pub proof fn lemma_key_there(
    w: World,
    sense: Sense,
    fact: Fact,
    node: NodeId,
    ty: PredicateTy,
    v: Datum,
    matches: bool,
)
    requires
        w.cx.ast.wf(),
        w.cx.ast.has(node),
        layout::key_is(w.names, fact.key(), ty, v),
        matches ==> reading::means_key(w, sense, node, ty, v),
    ensures
        all_there(
            w,
            fact,
            reading::takes_key(w, sense, node, ty),
            matches,
        ),
        forall|i: int|
            0 <= i < reading::takes_key(w, sense, node, ty).len() ==> (
            #[trigger] reading::takes_key(w, sense, node, ty)[i]).1 is Field
                || reading::takes_key(w, sense, node, ty).len() == 1,
{
    match (ty, w.cx.ast.kind(node)) {
        (PredicateTy::Record(tys), ExprKind::Record(_)) => lemma_takes_top_there(
            w,
            sense,
            fact,
            node,
            ty,
            tys@.len(),
            v,
            matches,
        ),
        (PredicateTy::Record(_), ExprKind::Var(symbol)) => {
            assert(matching::keyed(w.names, fact, ty));
        },
        (PredicateTy::Record(_), _) => {},
        _ => {
            let none = Seq::<usize>::empty();
            let path = Route::of(0, none);
            layout::lemma_whole(fact.key(), v, path);
            lemma_takes_there(w, sense, fact, node, ty, path, v, matches);
        },
    }
}

} // verus!
