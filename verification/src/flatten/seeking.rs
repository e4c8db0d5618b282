//! How a plain pattern is looked for: every literal that its key begins with narrows where the
//! facts are looked for, however many there are, every other is a filter, and every variable is
//! found where it stands.
use vstd::prelude::*;

use super::model;
use super::model::{Cx, Seek, Slot, St};
use crate::boxed;
use crate::iter::Address;
use crate::plan::{FieldPath, Residual, ResidualOp, SeekKeyPart};
use crate::schema::{NameKey, Names, PredicateTy, Symbol};
use crate::syntax::{ExprKind, Literal, NodeId};
use crate::tuple;

verus! {

/// The bytes of a literal of some type.
pub open spec fn literal_bytes(names: Names, kind: ExprKind, ty: PredicateTy) -> Option<Seq<u8>> {
    match (kind, ty) {
        (ExprKind::Lit(Literal::Int(value)), PredicateTy::Int) => Some(tuple::enc_i64(value)),
        (ExprKind::Lit(Literal::Str(symbol)), PredicateTy::Str) => match names.text(symbol) {
            Some(text) => Some(tuple::enc_str(text)),
            None => None,
        },
        _ => None,
    }
}

/// A key pattern: the fields it gives, of the fields the type has.
pub struct Key {
    pub fields: Seq<(Symbol, NodeId)>,
    pub tys: Seq<(NameKey, PredicateTy)>,
}

impl Key {
    /// What the `i`th field of the type is given.
    pub open spec fn given(self, i: int) -> Option<NodeId> {
        model::field_pattern(self.fields, Symbol::Schema(self.tys[i].0))
    }

    /// The bytes of the literal it is given.
    pub open spec fn literal(self, cx: Cx, names: Names, i: int) -> Option<Seq<u8>> {
        match self.given(i) {
            Some(node) => literal_bytes(names, cx.ast.kind(node), self.tys[i].1),
            None => None,
        }
    }

    /// Whether it is given a variable.
    pub open spec fn is_var(self, cx: Cx, i: int, var: Symbol) -> bool {
        self.given(i) matches Some(node) && cx.ast.kind(node) == ExprKind::Var(var)
    }

    /// Whether it is left open.
    pub open spec fn is_open(self, cx: Cx, i: int) -> bool {
        self.given(i) matches Some(node) ==> cx.ast.kind(node) is Wildcard
    }

    /// A plain pattern gives literals, wildcards, and variables that nothing has bound and no
    /// prefix holds, each once.
    pub open spec fn plain(self, cx: Cx, st: St) -> bool {
        &&& forall|i: int|
            0 <= i < self.tys.len() ==> #[trigger] self.is_open(cx, i) || self.literal(
                cx,
                st.names,
                i,
            ) is Some || exists|var: Symbol| #[trigger] self.is_var(cx, i, var)
        &&& forall|i: int, var: Symbol|
            0 <= i < self.tys.len() && #[trigger] self.is_var(cx, i, var) ==> model::lookup(
                st.bindings,
                var,
            ) is None && model::patterns_of(st.constraints, var).len() == 0
        &&& forall|i: int, j: int, var: Symbol|
            0 <= i < j < self.tys.len() && #[trigger] self.is_var(cx, i, var)
                ==> !#[trigger] self.is_var(cx, j, var)
    }

    /// The key begins with `m` literals, and no more.
    pub open spec fn leads(self, cx: Cx, names: Names, m: nat) -> bool {
        &&& m <= self.tys.len()
        &&& forall|i: int| 0 <= i < m ==> (#[trigger] self.literal(cx, names, i)) is Some
        &&& m < self.tys.len() ==> self.literal(cx, names, m as int) is None
    }

    /// How it is looked for, as far as its first `k` fields go.
    spec fn sought(self, cx: Cx, st: St, at: Address, m: nat, k: nat, s1: St, seek: Seek) -> bool {
        &&& s1.reports == st.reports
        &&& s1.names == st.names
        &&& s1.constraints == st.constraints
        &&& seek.building == (k <= m)
        &&& seek.parts.len() == (if k <= m {
            k
        } else {
            m
        })
        &&& forall|i: int|
            0 <= i < seek.parts.len() ==> #[trigger] seek.parts[i] == SeekKeyPart::Bytes(
                boxed::boxed(self.literal(cx, st.names, i)->0),
            )
        &&& forall|i: int|
            m <= i < k && (#[trigger] self.literal(cx, st.names, i)) is Some
                ==> seek.residuals.contains(
                Residual {
                    path: FieldPath::of(i as usize, Seq::empty()),
                    op: ResidualOp::EqConst(boxed::boxed(self.literal(cx, st.names, i)->0)),
                },
            )
        &&& forall|i: int, var: Symbol|
            0 <= i < k && #[trigger] self.is_var(cx, i, var) ==> model::lookup(s1.bindings, var)
                == Some(
                Slot::Field {
                    address: at,
                    path: FieldPath::of(i as usize, Seq::empty()),
                    ty: self.tys[i].1,
                },
            )
        &&& forall|var: Symbol| (#[trigger] model::lookup(s1.bindings, var)) is Some
            ==> model::lookup(st.bindings, var) is Some || exists|i: int|
            0 <= i < k && self.is_var(cx, i, var)
    }
}

proof fn lemma_lookup(bindings: Seq<(Symbol, Slot)>, symbol: Symbol, slot: Slot, var: Symbol)
    ensures
        model::lookup(bindings.push((symbol, slot)), var) == (if symbol == var {
            Some(slot)
        } else {
            model::lookup(bindings, var)
        }),
{
    let all = bindings.push((symbol, slot));
    assert(all.drop_last() =~= bindings);
}

proof fn lemma_contains(residuals: Seq<Residual>, last: Residual, one: Residual)
    ensures
        residuals.contains(one) ==> residuals.push(last).contains(one),
        residuals.push(last).contains(last),
{
    let all = residuals.push(last);
    if residuals.contains(one) {
        let i = choose|i: int| 0 <= i < residuals.len() && residuals[i] == one;
        assert(all[i] == one);
    }
    assert(all[residuals.len() as int] == last);
}

proof fn lemma_literal(
    cx: Cx,
    st: St,
    node: NodeId,
    ty: PredicateTy,
    at: Address,
    path: FieldPath,
    level: Seek,
)
    requires
        literal_bytes(st.names, cx.ast.kind(node), ty) is Some,
    ensures
        ({
            let bytes = literal_bytes(st.names, cx.ast.kind(node), ty)->0;
            let (s1, l1) = model::field(cx, st, node, ty, at, path, level);
            &&& s1 == st.sealing(boxed::boxed(bytes)@ == bytes)
            &&& l1 == level.narrowed(
                SeekKeyPart::Bytes(boxed::boxed(bytes)),
                path,
                ResidualOp::EqConst(boxed::boxed(bytes)),
            )
        }),
{
    let bytes = literal_bytes(st.names, cx.ast.kind(node), ty)->0;
    assert(cx.ast.constant(node));
    assert(model::resolve(cx, st, node) == (st, Some(Slot::Const(node))));
    assert(model::constant(cx, st, node, ty) == Some(model::Bytes::Whole(bytes)));
}

proof fn lemma_sought(cx: Cx, st: St, key: Key, at: Address, m: nat, k: nat)
    requires
        key.plain(cx, st),
        key.leads(cx, st.names, m),
        k <= key.tys.len(),
    ensures
        ({
            let (s1, seek) = model::key_fields(
                cx,
                st,
                key.fields,
                key.tys,
                k,
                at,
                Seek::empty(),
            );
            key.sought(cx, st, at, m, k, s1, seek)
        }),
    decreases k,
{
    if k > 0 {
        let j = k - 1;
        lemma_sought(cx, st, key, at, m, j as nat);
        let (s1, l1) = model::key_fields(
            cx,
            st,
            key.fields,
            key.tys,
            j as nat,
            at,
            Seek::empty(),
        );
        let (s2, l2) = model::key_fields(cx, st, key.fields, key.tys, k, at, Seek::empty());
        let path = FieldPath::of(j as usize, Seq::empty());
        let ty = key.tys[j].1;
        let ready = s1.sealing(FieldPath::sealed(j as usize, Seq::empty()));
        if let Some(node) = key.given(j) {
            if let Some(bytes) = key.literal(cx, st.names, j) {
                lemma_literal(cx, ready, node, ty, at, path, l1);
                let filter = Residual { path, op: ResidualOp::EqConst(boxed::boxed(bytes)) };
                assert forall|i: int|
                    m <= i < k && (#[trigger] key.literal(cx, st.names, i))
                        is Some implies l2.residuals.contains(
                    Residual {
                        path: FieldPath::of(i as usize, Seq::empty()),
                        op: ResidualOp::EqConst(boxed::boxed(key.literal(cx, st.names, i)->0)),
                    },
                ) by {
                    lemma_contains(
                        l1.residuals,
                        filter,
                        Residual {
                            path: FieldPath::of(i as usize, Seq::empty()),
                            op: ResidualOp::EqConst(boxed::boxed(key.literal(cx, st.names, i)->0)),
                        },
                    );
                }
                assert(key.sought(cx, st, at, m, k, s2, l2));
            } else if cx.ast.kind(node) is Wildcard {
                assert(key.sought(cx, st, at, m, k, s2, l2));
            } else {
                assert(!key.is_open(cx, j));
                let var = choose|var: Symbol| #[trigger] key.is_var(cx, j, var);
                assert(key.is_var(cx, j, var));
                if model::lookup(s1.bindings, var) is Some {
                    let i = choose|i: int| 0 <= i < j && key.is_var(cx, i, var);
                    assert(key.is_var(cx, i, var));
                }
                let slot = Slot::Field { address: at, path, ty };
                assert(s2.bindings == s1.bindings.push((var, slot)));
                assert forall|one: Symbol| (#[trigger] model::lookup(s2.bindings, one))
                    is Some implies model::lookup(st.bindings, one) is Some || exists|i: int|
                    0 <= i < k && key.is_var(cx, i, one) by {
                    lemma_lookup(s1.bindings, var, slot, one);
                    assert(one == var ==> key.is_var(cx, j, one));
                    if one != var {
                        assert(model::lookup(s1.bindings, one) is Some);
                    }
                }
                assert forall|i: int, one: Symbol|
                    0 <= i < k && #[trigger] key.is_var(cx, i, one) implies model::lookup(
                    s2.bindings,
                    one,
                ) == Some(
                    Slot::Field {
                        address: at,
                        path: FieldPath::of(i as usize, Seq::empty()),
                        ty: key.tys[i].1,
                    },
                ) by {
                    lemma_lookup(s1.bindings, var, slot, one);
                }
                assert(key.sought(cx, st, at, m, k, s2, l2));
            }
        } else {
            assert(key.sought(cx, st, at, m, k, s2, l2));
        }
    }
}

/// A plain pattern is never refused. It is looked for under all the literals its key begins
/// with, in order; every later literal is a filter on its own field; and every variable is the
/// field it stands at.
pub proof fn law_a_plain_pattern_is_sought_by_its_literals(
    cx: Cx,
    st: St,
    key: Key,
    at: Address,
    m: nat,
)
    requires
        key.plain(cx, st),
        key.leads(cx, st.names, m),
    ensures
        ({
            let (after, seek) = model::key_fields(
                cx,
                st,
                key.fields,
                key.tys,
                key.tys.len(),
                at,
                Seek::empty(),
            );
            &&& after.reports == st.reports
            &&& seek.parts.len() == m
            &&& forall|i: int|
                0 <= i < m ==> #[trigger] seek.parts[i] == SeekKeyPart::Bytes(
                    boxed::boxed(key.literal(cx, st.names, i)->0),
                )
            &&& forall|i: int|
                m <= i < key.tys.len() && (#[trigger] key.literal(cx, st.names, i)) is Some
                    ==> seek.residuals.contains(
                    Residual {
                        path: FieldPath::of(i as usize, Seq::empty()),
                        op: ResidualOp::EqConst(boxed::boxed(key.literal(cx, st.names, i)->0)),
                    },
                )
            &&& forall|i: int, var: Symbol|
                0 <= i < key.tys.len() && #[trigger] key.is_var(cx, i, var) ==> model::lookup(
                    after.bindings,
                    var,
                ) == Some(
                    Slot::Field {
                        address: at,
                        path: FieldPath::of(i as usize, Seq::empty()),
                        ty: key.tys[i].1,
                    },
                )
        }),
{
    lemma_sought(cx, st, key, at, m, key.tys.len());
}

} // verus!
