//! Types of variables: what the statements of a query have to agree on.
use vstd::prelude::*;

use super::{Place, Sense, World};
use crate::flatten::collecting;
use crate::flatten::model;
use crate::flatten::model::{Alias, Alt, Slot, Stmt};
use crate::flatten::taking;
use crate::plan::Route;
use crate::reading;
use crate::schema::{NameKey, PredicateTy, Symbol};
use crate::syntax::{ExprKind, FieldRef, NodeId};

verus! {

// ---- what is taken with more bound ------------------------------------------

/// Whatever one sense has, the other has.
pub open spec fn covers(less: Sense, more: Sense) -> bool {
    forall|symbol: Symbol| (#[trigger] less(symbol)) is Some ==> more(symbol) is Some
}

/// What a sense does not have yet.
pub open spec fn missing(sense: Sense) -> spec_fn((Symbol, Place)) -> bool {
    |one: (Symbol, Place)| sense(one.0) is None
}

proof fn lemma_takes_less(
    w: World,
    less: Sense,
    more: Sense,
    node: NodeId,
    ty: PredicateTy,
    path: Route,
)
    requires
        covers(less, more),
    ensures
        reading::takes(w, more, node, ty, path) == reading::takes(w, less, node, ty, path).filter(
            missing(more),
        ),
    decreases node.0, 1nat, 0nat,
{
    reveal_with_fuel(Seq::filter, 2);
    match w.cx.ast.kind(node) {
        ExprKind::Var(symbol) => {
            let one = (symbol, Place::Field(path, ty));
            assert(seq![one].drop_last() =~= Seq::<(Symbol, Place)>::empty());
            assert(reading::takes(w, more, node, ty, path) =~= reading::takes(
                w,
                less,
                node,
                ty,
                path,
            ).filter(missing(more)));
        },
        ExprKind::Record(fields) => {
            if let PredicateTy::Record(tys) = ty {
                lemma_takes_fields_less(w, less, more, node, fields@, tys@, tys@.len(), path);
            }
        },
        _ => {},
    }
}

proof fn lemma_takes_fields_less(
    w: World,
    less: Sense,
    more: Sense,
    node: NodeId,
    fields: Seq<(Symbol, NodeId)>,
    tys: Seq<(NameKey, PredicateTy)>,
    k: nat,
    path: Route,
)
    requires
        covers(less, more),
    ensures
        reading::takes_fields(w, more, node, fields, tys, k, path) == reading::takes_fields(
            w,
            less,
            node,
            fields,
            tys,
            k,
            path,
        ).filter(missing(more)),
    decreases node.0, 0nat, k,
{
    if k == 0 {
        reveal(Seq::filter);
    } else {
        let j = (k - 1) as nat;
        lemma_takes_fields_less(w, less, more, node, fields, tys, j, path);
        let first = reading::takes_fields(w, less, node, fields, tys, j, path);
        let inner = Route::of(path.top(), path.inner().push((k - 1) as usize));
        match model::field_pattern(fields, Symbol::Schema(tys[k - 1].0)) {
            Some(piece) => if model::below(w.cx, node, piece) {
                lemma_takes_less(w, less, more, piece, tys[k - 1].1, inner);
                Seq::<(Symbol, Place)>::filter_distributes_over_add(
                    first,
                    reading::takes(w, less, piece, tys[k - 1].1, inner),
                    missing(more),
                );
            } else {
                assert(first + Seq::<(Symbol, Place)>::empty() =~= first);
                assert(first.filter(missing(more)) + Seq::<(Symbol, Place)>::empty()
                    =~= first.filter(missing(more)));
            },
            None => {
                assert(first + Seq::<(Symbol, Place)>::empty() =~= first);
                assert(first.filter(missing(more)) + Seq::<(Symbol, Place)>::empty()
                    =~= first.filter(missing(more)));
            },
        }
    }
}

proof fn lemma_takes_top_less(
    w: World,
    less: Sense,
    more: Sense,
    fields: Seq<(Symbol, NodeId)>,
    tys: Seq<(NameKey, PredicateTy)>,
    k: nat,
)
    requires
        covers(less, more),
    ensures
        reading::takes_top(w, more, fields, tys, k) == reading::takes_top(
            w,
            less,
            fields,
            tys,
            k,
        ).filter(missing(more)),
    decreases k,
{
    if k == 0 {
        reveal(Seq::filter);
    } else {
        let j = (k - 1) as nat;
        lemma_takes_top_less(w, less, more, fields, tys, j);
        let first = reading::takes_top(w, less, fields, tys, j);
        let path = Route::of((k - 1) as usize, Seq::empty());
        match model::field_pattern(fields, Symbol::Schema(tys[k - 1].0)) {
            Some(piece) => {
                lemma_takes_less(w, less, more, piece, tys[k - 1].1, path);
                Seq::<(Symbol, Place)>::filter_distributes_over_add(
                    first,
                    reading::takes(w, less, piece, tys[k - 1].1, path),
                    missing(more),
                );
            },
            None => {
                assert(first + Seq::<(Symbol, Place)>::empty() =~= first);
                assert(first.filter(missing(more)) + Seq::<(Symbol, Place)>::empty()
                    =~= first.filter(missing(more)));
            },
        }
    }
}

/// With more bound a pattern takes what is still missing.
pub proof fn lemma_takes_key_less(
    w: World,
    less: Sense,
    more: Sense,
    node: NodeId,
    ty: PredicateTy,
)
    requires
        covers(less, more),
    ensures
        reading::takes_key(w, more, node, ty) == reading::takes_key(w, less, node, ty).filter(
            missing(more),
        ),
{
    match (ty, w.cx.ast.kind(node)) {
        (PredicateTy::Record(tys), ExprKind::Record(fields)) => lemma_takes_top_less(
            w,
            less,
            more,
            fields@,
            tys@,
            tys@.len(),
        ),
        (PredicateTy::Record(_), kind) => {
            reveal_with_fuel(Seq::filter, 2);
            if kind is Var {
                let one = (kind->Var_0, Place::Key(ty));
                assert(seq![one].drop_last() =~= Seq::<(Symbol, Place)>::empty());
            }
            assert(reading::takes_key(w, more, node, ty) =~= reading::takes_key(
                w,
                less,
                node,
                ty,
            ).filter(missing(more)));
        },
        _ => lemma_takes_less(w, less, more, node, ty, Route::of(0, Seq::empty())),
    }
}

/// What is taken is among what a pattern can take.
pub proof fn lemma_occurs(w: World, sense: Sense, alt: Alt, m: int)
    requires
        0 <= m < reading::takes_key(w, sense, alt.key, reading::key_of(w, alt)).len(),
    ensures
        exists|p: int|
            0 <= p < occurring(w, alt).len() && occurring(w, alt)[p] == reading::takes_key(
                w,
                sense,
                alt.key,
                reading::key_of(w, alt),
            )[m],
{
    let ty = reading::key_of(w, alt);
    lemma_takes_key_less(w, nothing(), sense, alt.key, ty);
    let all = occurring(w, alt);
    let own = reading::takes_key(w, sense, alt.key, ty);
    all.lemma_filter_contains_rev(missing(sense), own[m]);
    assert(all.contains(own[m]));
}

/// What a pattern can take is taken where it stands for nothing.
pub proof fn lemma_occurs_taken(w: World, sense: Sense, alt: Alt, symbol: Symbol)
    ensures
        reading::taken_in(
            reading::takes_key(w, sense, alt.key, reading::key_of(w, alt)),
            symbol,
        ) == (reading::taken_in(occurring(w, alt), symbol) && sense(symbol) is None),
{
    let ty = reading::key_of(w, alt);
    lemma_takes_key_less(w, nothing(), sense, alt.key, ty);
    let all = occurring(w, alt);
    let own = reading::takes_key(w, sense, alt.key, ty);
    if reading::taken_in(own, symbol) {
        let m = choose|m: int| 0 <= m < own.len() && (#[trigger] own[m]).0 == symbol;
        lemma_occurs(w, sense, alt, m);
        let p = choose|p: int| 0 <= p < all.len() && all[p] == own[m];
        assert(all[p].0 == symbol);
        taking::lemma_key_fresh(w, sense, alt.key, ty);
    }
    if reading::taken_in(all, symbol) && sense(symbol) is None {
        let p = choose|p: int| 0 <= p < all.len() && (#[trigger] all[p]).0 == symbol;
        all.lemma_filter_contains(missing(sense), p);
        let m = choose|m: int| 0 <= m < own.len() && own[m] == all[p];
        assert(own[m].0 == symbol);
    }
}

proof fn lemma_common_of(
    taken: Seq<(Symbol, Place)>,
    other: Seq<(Symbol, Place)>,
    n: nat,
    symbol: Symbol,
)
    requires
        n <= taken.len(),
    ensures
        reading::taken_in(reading::common(taken, other, n), symbol) == (reading::taken_in(
            taken.take(n as int),
            symbol,
        ) && reading::taken_in(other, symbol)),
        forall|j: int|
            0 <= j < reading::common(taken, other, n).len() ==> exists|i: int|
                0 <= i < n && taken[i] == #[trigger] reading::common(taken, other, n)[j],
    decreases n,
{
    if n > 0 {
        let m = (n - 1) as nat;
        lemma_common_of(taken, other, m, symbol);
        let before = reading::common(taken, other, m);
        let both = reading::common(taken, other, n);
        let (short, long) = (taken.take(m as int), taken.take(n as int));
        assert(long[m as int] == taken[m as int]);
        if reading::taken_in(both, symbol) {
            let j = choose|j: int| 0 <= j < both.len() && (#[trigger] both[j]).0 == symbol;
            if j < before.len() {
                assert(before[j].0 == symbol);
                let i = choose|i: int| 0 <= i < short.len() && (#[trigger] short[i]).0 == symbol;
                assert(long[i].0 == symbol);
            } else {
                assert(long[m as int].0 == symbol);
            }
        }
        if reading::taken_in(long, symbol) && reading::taken_in(other, symbol) {
            let i = choose|i: int| 0 <= i < long.len() && (#[trigger] long[i]).0 == symbol;
            if i < m {
                assert(short[i].0 == symbol);
                let j = choose|j: int| 0 <= j < before.len() && (#[trigger] before[j]).0 == symbol;
                assert(both[j].0 == symbol);
            } else {
                assert(both[both.len() - 1].0 == symbol);
            }
        }
        assert forall|j: int| 0 <= j < both.len() implies exists|i: int|
            0 <= i < n && taken[i] == #[trigger] both[j] by {
            if j < before.len() {
                assert(both[j] == before[j]);
                let i = choose|i: int| 0 <= i < m && taken[i] == before[j];
                assert(taken[i] == both[j]);
            } else {
                assert(taken[m as int] == both[j]);
            }
        }
    } else {
        assert(taken.take(0) =~= Seq::<(Symbol, Place)>::empty());
    }
}

/// What a scan binds, the first alternative takes.
pub proof fn lemma_shared_first(w: World, sense: Sense, alts: Seq<Alt>, k: nat, j: int)
    requires
        0 <= j < reading::shared(w, sense, alts, k).len(),
    ensures
        exists|x: int|
            0 <= x < reading::takes_key(
                w,
                sense,
                alts[0].key,
                reading::key_of(w, alts[0]),
            ).len() && reading::takes_key(w, sense, alts[0].key, reading::key_of(w, alts[0]))[x]
                == reading::shared(w, sense, alts, k)[j],
    decreases k,
{
    if k > 1 {
        let before = reading::shared(w, sense, alts, (k - 1) as nat);
        let own = reading::takes_key(w, sense, alts[k - 1].key, reading::key_of(w, alts[k - 1]));
        let one = reading::shared(w, sense, alts, k)[j];
        lemma_common_of(before, own, before.len(), one.0);
        let i = choose|i: int| 0 <= i < before.len() && before[i] == one;
        lemma_shared_first(w, sense, alts, (k - 1) as nat, i);
    } else {
        let first = reading::takes_key(w, sense, alts[0].key, reading::key_of(w, alts[0]));
        assert(first[j] == reading::shared(w, sense, alts, k)[j]);
    }
}

/// What a scan binds stood for nothing.
pub proof fn lemma_shared_fresh(w: World, sense: Sense, alts: Seq<Alt>, k: nat, j: int)
    requires
        0 <= j < reading::shared(w, sense, alts, k).len(),
    ensures
        sense(reading::shared(w, sense, alts, k)[j].0) is None,
{
    let first = reading::takes_key(w, sense, alts[0].key, reading::key_of(w, alts[0]));
    lemma_shared_first(w, sense, alts, k, j);
    taking::lemma_key_fresh(w, sense, alts[0].key, reading::key_of(w, alts[0]));
    let x = choose|x: int|
        0 <= x < first.len() && first[x] == reading::shared(w, sense, alts, k)[j];
    assert(sense(first[x].0) is None);
}

/// A scan binds what every alternative names and what stands for nothing yet.
pub proof fn lemma_shared(w: World, sense: Sense, alts: Seq<Alt>, k: nat, symbol: Symbol)
    requires
        0 < k <= alts.len(),
    ensures
        reading::taken_in(reading::shared(w, sense, alts, k), symbol) == (sense(symbol) is None
            && forall|i: int|
            0 <= i < k ==> reading::taken_in(occurring(w, #[trigger] alts[i]), symbol)),
    decreases k,
{
    let own = reading::takes_key(w, sense, alts[k - 1].key, reading::key_of(w, alts[k - 1]));
    lemma_occurs_taken(w, sense, alts[k - 1], symbol);
    if k > 1 {
        let before = reading::shared(w, sense, alts, (k - 1) as nat);
        lemma_shared(w, sense, alts, (k - 1) as nat, symbol);
        lemma_common_of(before, own, before.len(), symbol);
        assert(before.take(before.len() as int) =~= before);
    }
    let all = forall|i: int|
        0 <= i < k ==> reading::taken_in(occurring(w, #[trigger] alts[i]), symbol);
    if reading::taken_in(reading::shared(w, sense, alts, k), symbol) {
        assert forall|i: int| 0 <= i < k implies reading::taken_in(
            occurring(w, #[trigger] alts[i]),
            symbol,
        ) by {}
    }
    if all {
        assert(reading::taken_in(occurring(w, alts[k - 1]), symbol));
    }
}

// ---- types ------------------------------------------------------------------

/// The form of what a variable stands for.
pub enum Form {
    Row,
    Key,
    Field,
    Value,
    Const(NodeId),
}

/// What a variable stands for: its form, and its type. A variable that patterns take has the
/// form of a field, unless only whole keys are matched against it.
pub struct Kind {
    pub form: Form,
    pub ty: PredicateTy,
}

/// The kind of each variable.
pub type Kinds = spec_fn(Symbol) -> Kind;

/// The type of what is at a place.
pub open spec fn place_ty(place: Place) -> PredicateTy {
    match place {
        Place::Key(ty) => ty,
        Place::Field(_, ty) => ty,
    }
}

/// A variable of a kind can be met at a place.
pub open spec fn fits(kind: Kind, place: Place) -> bool {
    kind.ty == place_ty(place)
}

/// Everything is taken at places of the types variables have.
pub open spec fn fitting(kinds: Kinds, taken: Seq<(Symbol, Place)>) -> bool {
    forall|i: int| 0 <= i < taken.len() ==> fits(kinds((#[trigger] taken[i]).0), taken[i].1)
}

/// A variable that patterns can take.
pub open spec fn loose(kind: Kind) -> bool {
    kind.form is Field || kind.form is Key
}

/// The kind of one field.
pub open spec fn piece_kind(w: World, kind: Kind, name: Symbol) -> Option<Kind> {
    match (kind.form, kind.ty) {
        (Form::Value, _) => None,
        (Form::Const(folded), _) => match (w.cx.ast.kind(folded), model::field_of(kind.ty, name)) {
            (ExprKind::Record(fields), Some((_, ty))) => match model::field_pattern(
                fields@,
                name,
            ) {
                Some(inner) => Some(Kind { form: Form::Const(inner), ty }),
                None => None,
            },
            _ => None,
        },
        (_, PredicateTy::Fact(predicate)) => match w.cx.schema.predicate(predicate) {
            Some(declared) => match model::field_of(declared.key, name) {
                Some((_, ty)) => Some(Kind { form: Form::Field, ty }),
                None => None,
            },
            None => None,
        },
        (_, ty) => match model::field_of(ty, name) {
            Some((_, ty)) => Some(Kind { form: Form::Field, ty }),
            None => None,
        },
    }
}

/// The kind of a fact's value side.
pub open spec fn value_kind(w: World, kind: Kind) -> Option<Kind> {
    match (kind.form, kind.ty) {
        (Form::Row, PredicateTy::Fact(predicate)) => match w.cx.schema.predicate(predicate) {
            Some(declared) => match declared.value {
                Some(ty) => Some(Kind { form: Form::Value, ty }),
                None => None,
            },
            None => None,
        },
        (Form::Field, PredicateTy::Fact(predicate)) => match w.cx.schema.predicate(predicate) {
            Some(declared) => match declared.value {
                Some(ty) => Some(Kind { form: Form::Value, ty }),
                None => None,
            },
            None => None,
        },
        _ => None,
    }
}

/// An expression is of a kind. A constant is of whatever type it is used at.
pub open spec fn has_kind(w: World, kinds: Kinds, node: NodeId, kind: Kind) -> bool
    decreases node.0,
{
    if w.cx.ast.constant(node) {
        kind.form == Form::Const(node)
    } else {
        match w.cx.ast.kind(node) {
            ExprKind::Var(symbol) => kind == kinds(symbol),
            ExprKind::Fact(_, _) => model::hoisted_row(w.hoisted, node) matches Some(row) && kind
                == kinds(row),
            ExprKind::Access(FieldRef::Key(name), base) => base.0 < node.0 && exists|of: Kind|
                has_kind(w, kinds, base, of) && #[trigger] piece_kind(w, of, name) == Some(kind),
            ExprKind::Access(FieldRef::Value, base) => base.0 < node.0 && exists|of: Kind|
                has_kind(w, kinds, base, of) && #[trigger] value_kind(w, of) == Some(kind),
            _ => false,
        }
    }
}

/// A sense in which nothing stands for anything.
pub open spec fn nothing() -> Sense {
    |symbol: Symbol| None
}

/// Everything a pattern can take.
pub open spec fn occurring(w: World, alt: Alt) -> Seq<(Symbol, Place)> {
    reading::takes_key(w, nothing(), alt.key, reading::key_of(w, alt))
}

/// An alias between two variables that patterns take: it compares.
pub open spec fn compares(w: World, stmts: Seq<Stmt>, alias: Alias) -> bool {
    collecting::is_compare(w.cx, alias, collecting::capturable(w.cx, stmts, stmts.len()))
}

/// A pattern names the pieces of something of a kind.
pub open spec fn pattern_typed(w: World, kinds: Kinds, pattern: NodeId, kind: Kind) -> bool
    decreases pattern.0,
{
    match w.cx.ast.kind(pattern) {
        ExprKind::Var(symbol) => kinds(symbol) == kind,
        ExprKind::Wildcard => true,
        ExprKind::Record(fields) => forall|i: int|
            0 <= i < fields@.len() ==> (#[trigger] fields@[i]).1.0 < pattern.0 && (piece_kind(
                w,
                kind,
                fields@[i].0,
            ) matches Some(piece) && pattern_typed(w, kinds, fields@[i].1, piece)),
        _ => false,
    }
}

/// A fact pattern is one of a declared predicate, and meets every variable at its type.
pub open spec fn typed_alt(w: World, kinds: Kinds, alt: Alt) -> bool {
    &&& w.cx.schema.predicate(alt.predicate) is Some
    &&& fitting(kinds, occurring(w, alt))
}

/// A statement meets every variable at its type.
pub open spec fn typed_stmt(w: World, kinds: Kinds, stmts: Seq<Stmt>, stmt: Stmt) -> bool {
    match stmt {
        Stmt::Scan(scan) => forall|i: int|
            0 <= i < scan.alternatives@.len() ==> typed_alt(
                w,
                kinds,
                #[trigger] scan.alternatives@[i],
            ) && (scan.row matches Some(row) ==> kinds(row) == (Kind {
                form: Form::Row,
                ty: PredicateTy::Fact(scan.alternatives@[i].predicate),
            })),
        Stmt::Negate(tested) => forall|i: int|
            0 <= i < tested.alternatives@.len() ==> typed_alt(
                w,
                kinds,
                #[trigger] tested.alternatives@[i],
            ),
        Stmt::Alias(alias) => exists|kind: Kind| #[trigger]
            has_kind(w, kinds, alias.value, kind) && (if compares(w, stmts, alias) {
                kinds(w.cx.ast.kind(alias.pattern)->Var_0).ty == kind.ty
            } else {
                pattern_typed(w, kinds, alias.pattern, kind)
            }),
        Stmt::Constrain(_) => true,
    }
}

/// Each variable has one type, wherever the statements meet it, as typechecking sees to: the
/// type of the fields patterns take it at, of the row it names, of the constant it stands
/// for, or of what an alias names by it. What is constrained by a prefix is a string.
pub open spec fn typed(
    w: World,
    kinds: Kinds,
    bindings: Seq<(Symbol, Slot)>,
    stmts: Seq<Stmt>,
) -> bool {
    &&& forall|i: int| 0 <= i < stmts.len() ==> typed_stmt(w, kinds, stmts, #[trigger] stmts[i])
    &&& forall|i: int|
        0 <= i < bindings.len() ==> ((#[trigger] bindings[i]).1 matches Slot::Const(node)
            ==> kinds(bindings[i].0).form == Form::Const(node))
    &&& forall|i: int|
        0 <= i < w.constraints.len() ==> kinds((#[trigger] w.constraints[i]).0).ty is Str
}

} // verus!
