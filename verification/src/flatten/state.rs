//! The state of a flattening, and the walk that decides where a value lives and how a
//! key field narrows a scan.
use vstd::prelude::*;

use super::model;
use super::model::{Bytes, Compare, Cx, Seek, Slot, St, SAY_ALTERNATION, SAY_FETCH_POSITION, SAY_FETCH_VALUE, SAY_NEVER, SAY_NO_PIECE, SAY_NO_REFERENCE, SAY_PREFIX_FIELD, SAY_PREFIX_VARIABLE, SAY_REPEATED, SAY_TWO_PATTERNS, SAY_UNRESOLVED, SAY_VALUE_MATCH, SAY_WHOLE_KEY};
use crate::boxed;
use crate::boxed::seal;
use crate::bytes::append_bytes;
use crate::diag::{Code, Diagnostics};
use crate::iter::Address;
use crate::plan::{FieldPath, Residual, ResidualOp, SeekKey, SeekKeyPart};
use crate::schema::{find_name, LocalInterner, NameKey, PredicateId, PredicateTy, Schema, Symbol};
use crate::syntax;
use crate::syntax::{Ast, ExprKind, FieldRef, Literal, NodeId, NodeSpan};
use crate::tuple;
use crate::tuple::{put_i64, put_str, MARK_RECORD, MARK_TERM};

verus! {

// ---- the state --------------------------------------------------------------

/// A flattening under way.
pub struct Flattener<'a> {
    pub ast: &'a Ast,
    pub schema: &'a Schema,
    pub interner: LocalInterner,
    pub diagnostics: Diagnostics,
    /// Variable and where its value lives. Append-only within a level, and searched
    /// from the back.
    pub bindings: Vec<(Symbol, Slot)>,
    /// Equalities between two already-bound places, applied once every level exists.
    pub compares: Vec<Compare>,
    /// Nested fact pattern and the row variable it was hoisted to.
    pub hoisted: Vec<(NodeId, Symbol)>,
    /// A reference already followed, and the register the fact it names is in.
    pub fetched: Vec<(Address, FieldPath, Address)>,
    /// Variable and a pattern its value has to match.
    pub constraints: Vec<(Symbol, NodeId)>,
    /// The variables whose constraints a capture has already applied.
    pub constrained: Vec<Symbol>,
}

/// A slot names only constants the tree has.
pub open spec fn slot_ok(cx: Cx, slot: Slot) -> bool {
    slot matches Slot::Const(node) ==> cx.ast.has(node) && cx.ast.constant(node)
}

/// The tree is well formed, and everything the state names is in it.
pub open spec fn state_ok(cx: Cx, st: St) -> bool {
    &&& cx.ast.wf()
    &&& forall|i: int| 0 <= i < st.bindings.len() ==> slot_ok(cx, (#[trigger] st.bindings[i]).1)
    &&& forall|i: int|
        0 <= i < st.compares.len() ==> cx.ast.has((#[trigger] st.compares[i]).at) && slot_ok(
            cx,
            st.compares[i].left,
        ) && slot_ok(cx, st.compares[i].right)
    &&& forall|i: int| 0 <= i < st.constraints.len() ==> cx.ast.has((#[trigger] st.constraints[i]).1)
}

/// What a walk that only reports and binds leaves alone.
pub open spec fn only_binds(old: St, new: St) -> bool {
    &&& new.hoisted == old.hoisted
    &&& new.fetched == old.fetched
    &&& new.constraints == old.constraints
    &&& new.names == old.names
    &&& new.compares == old.compares
    &&& old.bindings.len() <= new.bindings.len()
    &&& new.bindings.take(old.bindings.len() as int) == old.bindings
}

/// A state is as sound as another that names the same nodes.
pub proof fn lemma_ok_same(cx: Cx, a: St, b: St)
    requires
        state_ok(cx, a),
        b.bindings == a.bindings,
        b.compares == a.compares,
        b.constraints == a.constraints,
    ensures
        state_ok(cx, b),
{
}

/// Binding a sound slot keeps the state sound.
pub proof fn lemma_ok_binding(cx: Cx, st: St, symbol: Symbol, slot: Slot)
    requires
        state_ok(cx, st),
        slot_ok(cx, slot),
    ensures
        state_ok(cx, st.binding(symbol, slot)),
{
    let after = st.binding(symbol, slot);
    assert forall|i: int| 0 <= i < after.bindings.len() implies slot_ok(
        cx,
        (#[trigger] after.bindings[i]).1,
    ) by {
        if i < st.bindings.len() {
            assert(after.bindings[i] == st.bindings[i]);
        }
    }
}

pub proof fn lemma_only_binds(a: St, b: St, c: St)
    requires
        only_binds(a, b),
        only_binds(b, c),
    ensures
        only_binds(a, c),
{
    assert(c.bindings.take(a.bindings.len() as int) =~= c.bindings.take(b.bindings.len() as int).take(
        a.bindings.len() as int,
    ));
}

impl<'a> Flattener<'a> {
    pub open spec fn cx(self) -> Cx {
        Cx { ast: *self.ast, schema: *self.schema }
    }

    pub open spec fn st(self) -> St {
        St {
            bindings: self.bindings@,
            compares: self.compares@,
            hoisted: self.hoisted@,
            fetched: self.fetched@,
            constraints: self.constraints@,
            constrained: self.constrained@,
            names: self.interner@,
            reports: self.diagnostics@,
            sealed: true,
        }
    }

    pub open spec fn ok(self) -> bool {
        state_ok(self.cx(), self.st())
    }
}

// ---- lemmas -----------------------------------------------------------------

pub proof fn lemma_lookup(bindings: Seq<(Symbol, Slot)>, symbol: Symbol)
    ensures
        match model::lookup(bindings, symbol) {
            Some(slot) => exists|i: int|
                0 <= i < bindings.len() && (#[trigger] bindings[i]) == (symbol, slot),
            None => forall|i: int| 0 <= i < bindings.len() ==> (#[trigger] bindings[i]).0 != symbol,
        },
    decreases bindings.len(),
{
    if bindings.len() > 0 {
        let last = bindings.len() - 1;
        if bindings.last().0 == symbol {
            assert(bindings[last] == (symbol, bindings.last().1));
        } else {
            let rest = bindings.drop_last();
            lemma_lookup(rest, symbol);
            if let Some(slot) = model::lookup(rest, symbol) {
                let i = choose|i: int| 0 <= i < rest.len() && (#[trigger] rest[i]) == (symbol, slot);
                assert(bindings[i] == (symbol, slot));
            } else {
                assert forall|i: int| 0 <= i < bindings.len() implies (#[trigger] bindings[i]).0
                    != symbol by {
                    if i < last {
                        assert(rest[i] == bindings[i]);
                    }
                }
            }
        }
    }
}

pub proof fn lemma_lookup_ok(cx: Cx, st: St, symbol: Symbol)
    requires
        state_ok(cx, st),
    ensures
        model::lookup(st.bindings, symbol) matches Some(slot) ==> slot_ok(cx, slot),
{
    lemma_lookup(st.bindings, symbol);
}

pub proof fn lemma_field_pattern(fields: Seq<(Symbol, NodeId)>, name: Symbol)
    ensures
        model::field_pattern(fields, name) matches Some(piece) ==> exists|i: int|
            0 <= i < fields.len() && (#[trigger] fields[i]).1 == piece,
    decreases fields.len(),
{
    if fields.len() > 0 {
        let rest = fields.drop_last();
        lemma_field_pattern(rest, name);
        if let Some(piece) = model::field_pattern(rest, name) {
            let i = choose|i: int| 0 <= i < rest.len() && (#[trigger] rest[i]).1 == piece;
            assert(fields[i].1 == piece);
        } else if fields.last().0 == name {
            assert(fields[fields.len() - 1].1 == fields.last().1);
        }
    }
}

/// The pattern a record node gives for a name is a child of the node, constant if the
/// node is.
pub proof fn lemma_piece(cx: Cx, node: NodeId, fields: Box<[(Symbol, NodeId)]>, name: Symbol)
    requires
        cx.ast.wf(),
        cx.ast.has(node),
        cx.ast.kind(node) == ExprKind::Record(fields),
    ensures
        model::field_pattern(fields@, name) matches Some(piece) ==> model::below(cx, node, piece) && cx.ast.has(
            piece,
        ),
{
    lemma_field_pattern(fields@, name);
    if let Some(piece) = model::field_pattern(fields@, name) {
        let i = choose|i: int| 0 <= i < fields@.len() && (#[trigger] fields@[i]).1 == piece;
        lemma_child(cx, node, fields, i);
    }
}

pub proof fn lemma_child(cx: Cx, node: NodeId, fields: Box<[(Symbol, NodeId)]>, i: int)
    requires
        cx.ast.wf(),
        cx.ast.has(node),
        cx.ast.kind(node) == ExprKind::Record(fields),
        0 <= i < fields@.len(),
    ensures
        model::below(cx, node, fields@[i].1),
        cx.ast.has(fields@[i].1),
{
    assert(syntax::children_below(cx.ast.tree().kinds()[node.0 as int], node.0 as nat));
    assert(fields@[i].1.0 < node.0);
    if cx.ast.constant(node) {
        assert(cx.ast.constant(fields@[i].1));
    }
}

pub proof fn lemma_patterns_of(constraints: Seq<(Symbol, NodeId)>, symbol: Symbol)
    ensures
        forall|i: int|
            0 <= i < model::patterns_of(constraints, symbol).len() ==> exists|j: int|
                0 <= j < constraints.len() && (#[trigger] constraints[j]).1
                    == #[trigger] model::patterns_of(constraints, symbol)[i],
    decreases constraints.len(),
{
    if constraints.len() > 0 {
        let rest = constraints.drop_last();
        lemma_patterns_of(rest, symbol);
        let all = model::patterns_of(constraints, symbol);
        assert forall|i: int| 0 <= i < all.len() implies exists|j: int|
            0 <= j < constraints.len() && (#[trigger] constraints[j]).1 == #[trigger] all[i] by {
            if i < model::patterns_of(rest, symbol).len() {
                assert(all[i] == model::patterns_of(rest, symbol)[i]);
                let j = choose|j: int|
                    0 <= j < rest.len() && (#[trigger] rest[j]).1 == model::patterns_of(rest, symbol)[i];
                assert(constraints[j] == rest[j]);
            } else {
                assert(constraints[constraints.len() - 1].1 == all[i]);
            }
        }
    }
}

// ---- small searches ---------------------------------------------------------

/// The pattern a record gives for `name`, if it gives one. An omitted field is a
/// wildcard.
pub fn find_pattern(fields: &[(Symbol, NodeId)], name: Symbol) -> (found: Option<NodeId>)
    ensures
        found == model::field_pattern(fields@, name),
{
    let mut i: usize = 0;
    while i < fields.len()
        invariant
            i <= fields@.len(),
            model::field_pattern(fields@.take(i as int), name) is None,
        decreases fields@.len() - i,
    {
        proof {
            assert(fields@.take(i + 1).drop_last() =~= fields@.take(i as int));
        }
        if fields[i].0 == name {
            proof {
                lemma_field_pattern_take(fields@, name, i + 1);
            }
            return Some(fields[i].1);
        }
        i += 1;
    }
    proof {
        assert(fields@.take(i as int) =~= fields@);
    }
    None
}

proof fn lemma_field_pattern_take(fields: Seq<(Symbol, NodeId)>, name: Symbol, n: int)
    requires
        0 <= n <= fields.len(),
        model::field_pattern(fields.take(n), name) is Some,
    ensures
        model::field_pattern(fields, name) == model::field_pattern(fields.take(n), name),
    decreases fields.len(),
{
    if n < fields.len() {
        assert(fields.drop_last().take(n) =~= fields.take(n));
        lemma_field_pattern_take(fields.drop_last(), name, n);
    } else {
        assert(fields.take(n) =~= fields);
    }
}

/// A record type's field by name, with its position.
pub fn find_field(ty: &PredicateTy, name: Symbol) -> (found: Option<(usize, PredicateTy)>)
    ensures
        found == model::field_of(*ty, name),
{
    match (ty, name) {
        (PredicateTy::Record(fields), Symbol::Schema(key)) => match find_name(fields, key) {
            Some(at) => Some((at, fields[at].1.clone())),
            None => None,
        },
        _ => None,
    }
}

// ---- the seek of one level --------------------------------------------------

/// The seek and residuals of one level, built field by field.
pub struct SeekBuilder {
    pub parts: Vec<SeekKeyPart>,
    pub residuals: Vec<Residual>,
    /// Whether the seek prefix is still contiguous from field 0.
    pub building: bool,
}

impl View for SeekBuilder {
    type V = Seek;

    open spec fn view(&self) -> Seek {
        Seek { parts: self.parts@, residuals: self.residuals@, building: self.building }
    }
}

impl SeekBuilder {
    pub fn new() -> (level: Self)
        ensures
            level@ == Seek::empty(),
    {
        SeekBuilder { parts: Vec::new(), residuals: Vec::new(), building: true }
    }

    /// Whether every part is known when the plan is built.
    fn all_constant(&self) -> (yes: bool)
        ensures
            yes == self@.all_constant(),
    {
        let mut i: usize = 0;
        while i < self.parts.len()
            invariant
                i <= self.parts@.len(),
                forall|j: int| 0 <= j < i ==> (#[trigger] self.parts@[j]) is Bytes,
            decreases self.parts@.len() - i,
        {
            match &self.parts[i] {
                SeekKeyPart::Bytes(_) => {},
                _ => {
                    return false;
                },
            }
            i += 1;
        }
        true
    }

    /// The finished seek: a plain byte prefix where every part is constant, and a
    /// composite where a register's bytes have to be spliced in each time the level is
    /// opened.
    pub fn seek_key(&self) -> (key: SeekKey)
        ensures
            key == self@.key(),
            key matches SeekKey::Prefix(bytes) ==> bytes@ == model::constant_bytes(self@.parts),
            boxed::boxed(self@.residuals)@ == self@.residuals ==> self@.sealed(),
            key matches SeekKey::Composite(parts) ==> parts@ == self@.parts,
    {
        if self.all_constant() {
            let mut bytes: Vec<u8> = Vec::new();
            let mut i: usize = 0;
            while i < self.parts.len()
                invariant
                    i <= self.parts@.len(),
                    bytes@ == model::constant_bytes(self.parts@.take(i as int)),
                decreases self.parts@.len() - i,
            {
                proof {
                    assert(self.parts@.take(i + 1).drop_last() =~= self.parts@.take(i as int));
                }
                match &self.parts[i] {
                    SeekKeyPart::Bytes(constant) => {
                        append_bytes(&mut bytes, constant);
                    },
                    _ => {
                        proof {
                            assert(bytes@ + Seq::<u8>::empty() =~= bytes@);
                        }
                    },
                }
                i += 1;
            }
            proof {
                assert(self.parts@.take(i as int) =~= self.parts@);
            }
            return SeekKey::Prefix(seal(bytes));
        }
        let mut parts: Vec<SeekKeyPart> = Vec::new();
        let mut i: usize = 0;
        while i < self.parts.len()
            invariant
                i <= self.parts@.len(),
                parts@ == self.parts@.take(i as int),
            decreases self.parts@.len() - i,
        {
            parts.push(self.parts[i].clone());
            i += 1;
            proof {
                assert(parts@ =~= self.parts@.take(i as int));
            }
        }
        proof {
            assert(self.parts@.take(i as int) =~= self.parts@);
        }
        SeekKey::Composite(seal(parts))
    }
}

/// A constant a key field is matched against.
pub enum Const {
    Bytes(Vec<u8>),
    Prefix(Vec<u8>),
}

impl View for Const {
    type V = Bytes;

    open spec fn view(&self) -> Bytes {
        match self {
            Const::Bytes(bytes) => Bytes::Whole(bytes@),
            Const::Prefix(bytes) => Bytes::Prefix(bytes@),
        }
    }
}

/// Narrow a level by a constant: a seek component while the prefix is still building, a
/// residual once it has closed.
pub fn narrow_level(constant: Const, path: &FieldPath, level: &mut SeekBuilder)
    ensures
        final(level)@ == model::narrow_by(constant@, *path, old(level)@),
        model::bytes_sealed(constant@),
{
    match constant {
        Const::Bytes(bytes) => {
            if level.building {
                level.parts.push(SeekKeyPart::Bytes(seal(bytes)));
            } else {
                level.residuals.push(
                    Residual { path: path.clone(), op: ResidualOp::EqConst(seal(bytes)) },
                );
            }
        },
        Const::Prefix(bytes) => {
            if level.building {
                level.parts.push(SeekKeyPart::Bytes(seal(bytes)));
                level.building = false;
            } else {
                level.residuals.push(
                    Residual { path: path.clone(), op: ResidualOp::Prefix(seal(bytes)) },
                );
            }
        },
    }
}

impl<'a> Flattener<'a> {
    // ---- reading the state ------------------------------------------------------

    pub fn lookup(&self, symbol: Symbol) -> (slot: Option<Slot>)
        ensures
            slot == model::lookup(self.st().bindings, symbol),
    {
        let mut i: usize = self.bindings.len();
        proof {
            assert(self.bindings@.take(i as int) =~= self.bindings@);
        }
        while i > 0
            invariant
                i <= self.bindings@.len(),
                model::lookup(self.bindings@, symbol) == model::lookup(self.bindings@.take(i as int), symbol),
            decreases i,
        {
            proof {
                assert(self.bindings@.take(i as int).drop_last() =~= self.bindings@.take(i - 1));
            }
            if self.bindings[i - 1].0 == symbol {
                return Some(self.bindings[i - 1].1.clone());
            }
            i -= 1;
        }
        None
    }

    /// Whether a variable is bound yet.
    pub fn is_bound(&self, symbol: Symbol) -> (bound: bool)
        ensures
            bound == (model::lookup(self.st().bindings, symbol) is Some),
    {
        match self.lookup(symbol) {
            Some(_) => true,
            None => false,
        }
    }

    /// The row variable a hoisted generator was given.
    pub fn hoisted_row(&self, node: NodeId) -> (row: Option<Symbol>)
        ensures
            row == model::hoisted_row(self.st().hoisted, node),
    {
        let mut i: usize = 0;
        while i < self.hoisted.len()
            invariant
                i <= self.hoisted@.len(),
                model::hoisted_row(self.hoisted@.take(i as int), node) is None,
            decreases self.hoisted@.len() - i,
        {
            proof {
                assert(self.hoisted@.take(i + 1).drop_last() =~= self.hoisted@.take(i as int));
            }
            if self.hoisted[i].0 == node {
                proof {
                    lemma_hoisted_take(self.hoisted@, node, i + 1);
                }
                return Some(self.hoisted[i].1);
            }
            i += 1;
        }
        proof {
            assert(self.hoisted@.take(i as int) =~= self.hoisted@);
        }
        None
    }

    /// The register a reference has already been followed into, if any.
    pub fn fetched_register(&self, address: Address, path: &FieldPath) -> (register: Option<
        Address,
    >)
        ensures
            register == model::fetched_register(self.st().fetched, address, *path),
    {
        let mut i: usize = 0;
        while i < self.fetched.len()
            invariant
                i <= self.fetched@.len(),
                model::fetched_register(self.fetched@.take(i as int), address, *path) is None,
            decreases self.fetched@.len() - i,
        {
            proof {
                assert(self.fetched@.take(i + 1).drop_last() =~= self.fetched@.take(i as int));
            }
            if self.fetched[i].0 == address && self.fetched[i].1.same(path) {
                proof {
                    lemma_fetched_take(self.fetched@, address, *path, i + 1);
                }
                return Some(self.fetched[i].2);
            }
            i += 1;
        }
        proof {
            assert(self.fetched@.take(i as int) =~= self.fetched@);
        }
        None
    }

    /// Report at a node.
    pub fn report(&mut self, node: NodeId, code: Code, message: &str)
        requires
            old(self).ok(),
            old(self).cx().ast.has(node),
        ensures
            final(self).st() == model::report(old(self).cx(), old(self).st(), node, code, message@),
            final(self).cx() == old(self).cx(),
            final(self).ok(),
    {
        let span: NodeSpan = self.ast.store().span(node);
        self.diagnostics.error(code, message.to_owned(), span);
        proof {
            lemma_ok_same(old(self).cx(), old(self).st(), self.st());
        }
    }

    // ---- where a value lives ----------------------------------------------------

    /// A reference, as the row it names.
    pub fn dereference(&mut self, node: NodeId, slot: Slot) -> (place: Option<Slot>)
        requires
            old(self).ok(),
            old(self).cx().ast.has(node),
            slot_ok(old(self).cx(), slot),
        ensures
            (final(self).st(), place) == model::dereference(old(self).cx(), old(self).st(), node, slot),
            final(self).cx() == old(self).cx(),
            final(self).ok(),
            only_binds(old(self).st(), final(self).st()),
            final(self).st().bindings == old(self).st().bindings,
            final(self).st().constrained == old(self).st().constrained,
            place matches Some(s) ==> slot_ok(final(self).cx(), s),
    {
        proof {
            assert(self.bindings@.take(self.bindings@.len() as int) =~= self.bindings@);
        }
        match &slot {
            Slot::Field { address, path, ty: PredicateTy::Fact(predicate) } => {
                match self.fetched_register(*address, path) {
                    Some(register) => Some(
                        Slot::Row { address: register, predicate: Some(*predicate) },
                    ),
                    None => {
                        self.report(node, Code::NyiFactField, SAY_FETCH_POSITION);
                        None
                    },
                }
            },
            Slot::Value { ty: PredicateTy::Fact(_), .. } => {
                self.report(node, Code::NyiFactField, SAY_FETCH_VALUE);
                None
            },
            _ => Some(slot),
        }
    }

    /// The slot of key field `name` of a row of `predicate`.
    fn row_field(&self, address: Address, predicate: Option<PredicateId>, name: Symbol) -> (slot:
        Option<Slot>)
        ensures
            slot == model::row_field(self.cx(), address, predicate, name),
            model::place_sealed(slot),
    {
        match predicate {
            Some(id) => match self.schema.get(id) {
                Some(declared) => match find_field(declared.key().ty, name) {
                    Some((idx, ty)) => Some(
                        Slot::Field { address, path: FieldPath::field(idx), ty },
                    ),
                    None => None,
                },
                None => None,
            },
            None => None,
        }
    }

    /// The slot of one field inside another slot. A field of a place is a place,
    /// reached by extending the path rather than by moving any bytes.
    pub fn field_slot(&mut self, node: NodeId, slot: &Slot, name: Symbol) -> (found: Option<Slot>)
        requires
            old(self).ok(),
            old(self).cx().ast.has(node),
            slot_ok(old(self).cx(), *slot),
        ensures
            (final(self).st(), found) == model::field_slot(
                old(self).cx(),
                old(self).st(),
                node,
                *slot,
                name,
            ),
            final(self).cx() == old(self).cx(),
            final(self).ok(),
            only_binds(old(self).st(), final(self).st()),
            final(self).st().bindings == old(self).st().bindings,
            final(self).st().constrained == old(self).st().constrained,
            found matches Some(s) ==> slot_ok(final(self).cx(), s),
    {
        proof {
            assert(self.bindings@.take(self.bindings@.len() as int) =~= self.bindings@);
        }
        match slot {
            Slot::Row { address, predicate } => self.row_field(*address, *predicate, name),
            Slot::Key { address, ty } => match find_field(ty, name) {
                Some((idx, field_ty)) => Some(
                    Slot::Field { address: *address, path: FieldPath::field(idx), ty: field_ty },
                ),
                None => None,
            },
            Slot::Field { address, path, ty } => match ty {
                PredicateTy::Record(_) => match find_field(ty, name) {
                    Some((idx, field_ty)) => Some(
                        Slot::Field { address: *address, path: path.extended(idx), ty: field_ty },
                    ),
                    None => None,
                },
                PredicateTy::Fact(_) => match self.dereference(node, slot.clone()) {
                    Some(Slot::Row { address: register, predicate }) => self.row_field(
                        register,
                        predicate,
                        name,
                    ),
                    _ => None,
                },
                _ => None,
            },
            Slot::Const(folded) => match self.ast.store().kind(*folded) {
                ExprKind::Record(fields) => {
                    proof {
                        lemma_piece(self.cx(), *folded, *fields, name);
                    }
                    match find_pattern(fields, name) {
                        Some(piece) => Some(Slot::Const(piece)),
                        None => None,
                    }
                },
                _ => None,
            },
            Slot::Value { .. } => None,
        }
    }

    /// Where an expression's value lives: the one function from a read to a [`Slot`].
    pub fn resolve(&mut self, node: NodeId) -> (found: Option<Slot>)
        requires
            old(self).ok(),
            old(self).cx().ast.has(node),
        ensures
            (final(self).st(), found) == model::resolve(old(self).cx(), old(self).st(), node),
            final(self).cx() == old(self).cx(),
            final(self).ok(),
            only_binds(old(self).st(), final(self).st()),
            final(self).st().bindings == old(self).st().bindings,
            final(self).st().constrained == old(self).st().constrained,
            found matches Some(s) ==> slot_ok(final(self).cx(), s),
        decreases node.0,
    {
        proof {
            assert(self.bindings@.take(self.bindings@.len() as int) =~= self.bindings@);
            assert(syntax::children_below(self.ast.tree().kinds()[node.0 as int], node.0 as nat));
        }
        if self.ast.is_constant(node) {
            return Some(Slot::Const(node));
        }
        match self.ast.store().kind(node) {
            ExprKind::Var(symbol) => {
                proof {
                    lemma_lookup_ok(self.cx(), self.st(), *symbol);
                }
                self.lookup(*symbol)
            },
            ExprKind::Fact(_, _) => match self.hoisted_row(node) {
                Some(row) => {
                    proof {
                        lemma_lookup_ok(self.cx(), self.st(), row);
                    }
                    self.lookup(row)
                },
                None => None,
            },
            ExprKind::Access(field, base) => match self.resolve(*base) {
                Some(slot) => {
                    let place = self.dereference(node, slot);
                    match field {
                        FieldRef::Value => match place {
                            Some(Slot::Row { address, predicate: Some(id) }) => match self.schema.get(
                                id,
                            ) {
                                Some(declared) => match declared.value() {
                                    Some(value) => Some(
                                        Slot::Value { address, ty: value.ty.clone() },
                                    ),
                                    None => None,
                                },
                                None => None,
                            },
                            _ => None,
                        },
                        FieldRef::Key(name) => match place {
                            Some(inner) => self.field_slot(node, &inner, *name),
                            None => None,
                        },
                    }
                },
                None => None,
            },
            _ => None,
        }
    }

    /// The bytes a pattern determines, if it determines all of them.
    pub fn constant(&self, node: NodeId, ty: &PredicateTy) -> (found: Option<Const>)
        requires
            self.ok(),
            self.cx().ast.has(node),
        ensures
            match (found, model::constant(self.cx(), self.st(), node, *ty)) {
                (Some(bytes), Some(expected)) => bytes@ == expected,
                (None, None) => true,
                _ => false,
            },
        decreases model::rank(self.cx(), node), node.0,
    {
        match (self.ast.store().kind(node), ty) {
            (ExprKind::Var(symbol), _) => {
                proof {
                    lemma_lookup_ok(self.cx(), self.st(), *symbol);
                }
                match self.lookup(*symbol) {
                    Some(Slot::Const(folded)) => self.constant(folded, ty),
                    _ => None,
                }
            },
            (ExprKind::Lit(Literal::Int(value)), PredicateTy::Int) => {
                let mut out: Vec<u8> = Vec::new();
                put_i64(&mut out, *value);
                proof {
                    assert(out@ =~= crate::tuple::enc_i64(*value));
                }
                Some(Const::Bytes(out))
            },
            (ExprKind::Lit(Literal::Str(symbol)), PredicateTy::Str) => {
                match self.interner.try_resolve(*symbol) {
                    Some(text) => {
                        let mut out: Vec<u8> = Vec::new();
                        put_str(&mut out, text);
                        proof {
                            assert(out@ =~= tuple::enc_str(text@));
                        }
                        Some(Const::Bytes(out))
                    },
                    None => None,
                }
            },
            (ExprKind::Prefix(symbol), PredicateTy::Str) => {
                match self.interner.try_resolve(*symbol) {
                    Some(text) => {
                        let mut out: Vec<u8> = Vec::new();
                        put_str(&mut out, text);
                        // A string's encoding without its terminator is exactly the
                        // bytes every string starting with it begins with.
                        let _ = out.pop();
                        proof {
                            assert(out@ =~= tuple::enc_str_prefix(text@));
                        }
                        Some(Const::Prefix(out))
                    },
                    None => None,
                }
            },
            (ExprKind::Record(fields), PredicateTy::Record(tys)) => {
                let mut out: Vec<u8> = Vec::new();
                out.push(MARK_RECORD);
                let mut k: usize = 0;
                proof {
                    assert(out@ =~= seq![MARK_RECORD] + Seq::<u8>::empty());
                }
                while k < tys.len()
                    invariant
                        self.ok(),
                        self.cx().ast.has(node),
                        self.cx().ast.kind(node) == ExprKind::Record(*fields),
                        *ty == PredicateTy::Record(*tys),
                        k <= tys@.len(),
                        model::constant_fields(self.cx(), self.st(), node, fields@, tys@, k as nat)
                            matches Some(before) && out@ == seq![MARK_RECORD] + before,
                    decreases tys@.len() - k,
                {
                    let name = Symbol::Schema(tys[k].0);
                    proof {
                        lemma_piece(self.cx(), node, *fields, name);
                    }
                    let ghost step = model::constant_fields(
                        self.cx(),
                        self.st(),
                        node,
                        fields@,
                        tys@,
                        (k + 1) as nat,
                    );
                    let whole: Option<Vec<u8>> = match find_pattern(fields, name) {
                        Some(piece) => match self.constant(piece, &tys[k].1) {
                            Some(Const::Bytes(bytes)) => Some(bytes),
                            _ => None,
                        },
                        None => None,
                    };
                    match whole {
                        Some(bytes) => {
                            let ghost sofar = out@;
                            append_bytes(&mut out, &bytes);
                            proof {
                                assert(out@ =~= seq![MARK_RECORD] + step->0);
                            }
                        },
                        None => {
                            proof {
                                assert(step is None);
                                lemma_constant_fields_fail(
                                    self.cx(),
                                    self.st(),
                                    node,
                                    fields@,
                                    tys@,
                                    (k + 1) as nat,
                                    tys@.len(),
                                );
                            }
                            return None;
                        },
                    }
                    k += 1;
                }
                out.push(MARK_TERM);
                proof {
                    let bytes = model::constant_fields(
                        self.cx(),
                        self.st(),
                        node,
                        fields@,
                        tys@,
                        tys@.len(),
                    )->0;
                    assert(out@ =~= seq![MARK_RECORD] + bytes + seq![MARK_TERM]);
                }
                Some(Const::Bytes(out))
            },
            _ => None,
        }
    }

    /// Bind a pattern to the place it names, piece by piece.
    pub fn bind_pattern(&mut self, pattern: NodeId, slot: Slot)
        requires
            old(self).ok(),
            old(self).cx().ast.has(pattern),
            slot_ok(old(self).cx(), slot),
        ensures
            final(self).st() == model::bind_pattern(old(self).cx(), old(self).st(), pattern, slot),
            final(self).cx() == old(self).cx(),
            final(self).ok(),
            final(self).st().names == old(self).st().names,
        decreases pattern.0,
    {
        let ast: &'a Ast = self.ast;
        match ast.store().kind(pattern) {
            ExprKind::Var(symbol) => {
                proof {
                    lemma_lookup_ok(self.cx(), self.st(), *symbol);
                }
                match self.lookup(*symbol) {
                    Some(bound) => {
                        self.compares.push(Compare { left: bound, right: slot, at: pattern });
                    },
                    None => {
                        self.bindings.push((*symbol, slot));
                    },
                }
            },
            ExprKind::Wildcard => {},
            ExprKind::Record(fields) => {
                let mut k: usize = 0;
                while k < fields.len()
                    invariant
                        self.ok(),
                        self.cx() == old(self).cx(),
                        ast == self.ast,
                        ast.has(pattern),
                        ast.kind(pattern) == ExprKind::Record(*fields),
                        slot_ok(self.cx(), slot),
                        k <= fields@.len(),
                        self.st() == model::bind_pieces(
                            old(self).cx(),
                            old(self).st(),
                            pattern,
                            slot,
                            fields@,
                            k as nat,
                        ),
                        self.st().names == old(self).st().names,
                    decreases fields@.len() - k,
                {
                    let (name, piece) = fields[k];
                    proof {
                        lemma_child(self.cx(), pattern, *fields, k as int);
                    }
                    let mark: usize = self.diagnostics.len();
                    match self.field_slot(piece, &slot, name) {
                        Some(field) => {
                            self.bind_pattern(piece, field);
                        },
                        None => {
                            if self.diagnostics.len() == mark {
                                self.report(piece, Code::RejectTypeMismatch, SAY_NO_PIECE);
                            }
                        },
                    }
                    k += 1;
                }
            },
            _ => {
                self.report(pattern, Code::NyiBindUnification, SAY_TWO_PATTERNS);
            },
        }
    }

    // ---- one key field ----------------------------------------------------------

    /// The patterns the body constrains `symbol` by.
    fn patterns_of(&self, symbol: Symbol) -> (patterns: Vec<NodeId>)
        ensures
            patterns@ == model::patterns_of(self.st().constraints, symbol),
    {
        let mut patterns: Vec<NodeId> = Vec::new();
        let mut i: usize = 0;
        while i < self.constraints.len()
            invariant
                i <= self.constraints@.len(),
                patterns@ == model::patterns_of(self.constraints@.take(i as int), symbol),
            decreases self.constraints@.len() - i,
        {
            proof {
                assert(self.constraints@.take(i + 1).drop_last() =~= self.constraints@.take(
                    i as int,
                ));
            }
            if self.constraints[i].0 == symbol {
                patterns.push(self.constraints[i].1);
            }
            i += 1;
        }
        proof {
            assert(self.constraints@.take(i as int) =~= self.constraints@);
        }
        patterns
    }

    /// Narrow the field that captures a variable by every pattern the body constrains
    /// it with, and close the seek prefix, which a capture always does.
    pub fn constrain(
        &mut self,
        symbol: Symbol,
        ty: &PredicateTy,
        path: &FieldPath,
        level: &mut SeekBuilder,
    )
        requires
            old(self).ok(),
        ensures
            (final(self).st(), final(level)@) == model::constrain(
                old(self).cx(),
                old(self).st(),
                symbol,
                *ty,
                *path,
                old(level)@,
            ),
            final(self).cx() == old(self).cx(),
            final(self).ok(),
            only_binds(old(self).st(), final(self).st()),
    {
        proof {
            assert(self.bindings@.take(self.bindings@.len() as int) =~= self.bindings@);
            lemma_patterns_of(self.constraints@, symbol);
        }
        let patterns = self.patterns_of(symbol);
        if patterns.len() == 0 {
            level.building = false;
            return;
        }
        self.constrained.push(symbol);
        let ghost start = self.st();
        proof {
            lemma_ok_same(old(self).cx(), old(self).st(), start);
        }
        let mut k: usize = 0;
        while k < patterns.len()
            invariant
                self.ok(),
                self.cx() == old(self).cx(),
                k <= patterns@.len(),
                forall|i: int| 0 <= i < patterns@.len() ==> self.cx().ast.has(#[trigger] patterns@[i]),
                (self.st(), level@) == model::constrain_each(
                    old(self).cx(),
                    start,
                    patterns@,
                    k as nat,
                    *ty,
                    *path,
                    old(level)@,
                ),
                only_binds(start, self.st()),
            decreases patterns@.len() - k,
        {
            let pattern: NodeId = patterns[k];
            let ghost before = self.st();
            match self.constant(pattern, ty) {
                Some(bytes) => {
                    narrow_level(bytes, path, level);
                },
                None => {
                    level.building = false;
                    self.report(pattern, Code::RejectTypeMismatch, SAY_PREFIX_VARIABLE);
                },
            }
            k += 1;
        }
    }

    /// A field matched against something already bound: a splice while the seek is
    /// still being built, a residual once it is closed. `ty` is the field's declared
    /// type, which says whether the bytes there are a value or a reference.
    pub fn matched(
        &mut self,
        node: NodeId,
        slot: &Slot,
        ty: &PredicateTy,
        address: Address,
        path: &FieldPath,
        level: &mut SeekBuilder,
    )
        requires
            old(self).ok(),
            old(self).cx().ast.has(node),
            slot_ok(old(self).cx(), *slot),
        ensures
            (final(self).st(), final(level)@) == model::matched(
                old(self).cx(),
                old(self).st(),
                node,
                *slot,
                *ty,
                address,
                *path,
                old(level)@,
            ),
            final(self).cx() == old(self).cx(),
            final(self).ok(),
            only_binds(old(self).st(), final(self).st()),
        decreases
                0nat,
                (match *slot {
                    Slot::Const(folded) => folded.0 as nat,
                    _ => 0,
                }),
                2nat,
    {
        proof {
            assert(self.bindings@.take(self.bindings@.len() as int) =~= self.bindings@);
        }
        match slot {
            // The two are the same record and not the same bytes: a stored key is flat,
            // while a record inside a field keeps its wrapper.
            Slot::Key { .. } => {
                level.building = false;
                self.report(node, Code::NyiWholeKey, SAY_WHOLE_KEY);
            },
            Slot::Field { address: from, path: at, .. } => {
                // The same register is this row: an intra-row equality, which needs an
                // operator the executor does not have.
                if *from == address {
                    self.report(node, Code::NyiRepeatedVariable, SAY_REPEATED);
                    return;
                }
                if level.building {
                    level.parts.push(
                        SeekKeyPart::RegisterField { address: *from, path: at.clone() },
                    );
                } else {
                    level.residuals.push(
                        Residual {
                            path: path.clone(),
                            op: ResidualOp::EqRegisterField { address: *from, path: at.clone() },
                        },
                    );
                }
            },
            // The field holds an id, and the bound row is that id, so the compare is
            // against the register's identity.
            Slot::Row { address: from, predicate } => {
                let refers: bool = match (ty, predicate) {
                    (PredicateTy::Fact(referenced), Some(held)) => *referenced == *held,
                    _ => false,
                };
                if refers {
                    if level.building {
                        level.parts.push(SeekKeyPart::RegisterFactId(*from));
                    } else {
                        level.residuals.push(
                            Residual {
                                path: path.clone(),
                                op: ResidualOp::EqRegisterFactId(*from),
                            },
                        );
                    }
                } else {
                    self.report(node, Code::RejectTypeMismatch, SAY_NO_REFERENCE);
                }
            },
            Slot::Const(folded) => {
                match self.constant(*folded, ty) {
                    Some(bytes) => {
                        narrow_level(bytes, path, level);
                    },
                    None => {
                        self.partial(*folded, ty, address, path, level);
                    },
                }
            },
            Slot::Value { .. } => {
                self.report(node, Code::NyiValueMatch, SAY_VALUE_MATCH);
            },
        }
    }

    /// A record pattern that gives only some of its fields, including none.
    pub fn partial(
        &mut self,
        node: NodeId,
        ty: &PredicateTy,
        address: Address,
        path: &FieldPath,
        level: &mut SeekBuilder,
    )
        requires
            old(self).ok(),
            old(self).cx().ast.has(node),
        ensures
            (final(self).st(), final(level)@) == model::partial(
                old(self).cx(),
                old(self).st(),
                node,
                *ty,
                address,
                *path,
                old(level)@,
            ),
            final(self).cx() == old(self).cx(),
            final(self).ok(),
            only_binds(old(self).st(), final(self).st()),
        decreases model::rank(old(self).cx(), node), node.0, 1nat,
    {
        proof {
            assert(self.bindings@.take(self.bindings@.len() as int) =~= self.bindings@);
        }
        level.building = false;
        let ast: &'a Ast = self.ast;
        match (ast.store().kind(node), ty) {
            (ExprKind::Record(fields), PredicateTy::Record(tys)) => {
                let mut k: usize = 0;
                while k < tys.len()
                    invariant
                        self.ok(),
                        self.cx() == old(self).cx(),
                        ast == self.ast,
                        ast.has(node),
                        ast.kind(node) == ExprKind::Record(*fields),
                        k <= tys@.len(),
                        (self.st(), level@) == model::partial_fields(
                            old(self).cx(),
                            old(self).st(),
                            node,
                            fields@,
                            tys@,
                            k as nat,
                            address,
                            *path,
                            old(level)@.closed(),
                        ),
                        only_binds(old(self).st(), self.st()),
                    decreases tys@.len() - k,
                {
                    let name = Symbol::Schema(tys[k].0);
                    proof {
                        lemma_piece(self.cx(), node, *fields, name);
                    }
                    let ghost before = self.st();
                    match find_pattern(fields, name) {
                        Some(piece) => {
                            self.field(piece, &tys[k].1, address, &path.extended(k), level);
                            proof {
                                lemma_only_binds(old(self).st(), before, self.st());
                            }
                        },
                        None => {},
                    }
                    k += 1;
                }
            },
            _ => {},
        }
    }

    /// One key field: seek, splice, residual, or capture.
    pub fn field(
        &mut self,
        node: NodeId,
        ty: &PredicateTy,
        address: Address,
        path: &FieldPath,
        level: &mut SeekBuilder,
    )
        requires
            old(self).ok(),
            old(self).cx().ast.has(node),
        ensures
            (final(self).st(), final(level)@) == model::field(
                old(self).cx(),
                old(self).st(),
                node,
                *ty,
                address,
                *path,
                old(level)@,
            ),
            final(self).cx() == old(self).cx(),
            final(self).ok(),
            only_binds(old(self).st(), final(self).st()),
        decreases model::rank(old(self).cx(), node), node.0, 3nat,
    {
        proof {
            assert(self.bindings@.take(self.bindings@.len() as int) =~= self.bindings@);
        }
        let ast: &'a Ast = self.ast;
        match ast.store().kind(node) {
            ExprKind::Wildcard => {
                level.building = false;
            },
            // A range, and so the one narrowing that is not a slot: there is no single
            // value for a prefix to be.
            ExprKind::Prefix(_) => {
                match self.constant(node, ty) {
                    Some(bytes) => {
                        narrow_level(bytes, path, level);
                    },
                    None => {
                        self.report(node, Code::RejectTypeMismatch, SAY_PREFIX_FIELD);
                    },
                }
            },
            ExprKind::Disjunction(_) => {
                level.building = false;
                self.report(node, Code::NyiDisjunction, SAY_ALTERNATION);
            },
            ExprKind::Never => {
                level.building = false;
                self.report(node, Code::NyiNever, SAY_NEVER);
            },
            kind => {
                // First occurrence in this order: the field is an output, so it cannot
                // narrow the scan, unless a constraint elsewhere in the body says what
                // the output has to look like.
                if let ExprKind::Var(symbol) = kind {
                    if !self.is_bound(*symbol) {
                        self.bindings.push(
                            (
                                *symbol,
                                Slot::Field { address, path: path.clone(), ty: ty.clone() },
                            ),
                        );
                        let ghost bound = self.st();
                        proof {
                            lemma_ok_binding(
                                old(self).cx(),
                                old(self).st(),
                                *symbol,
                                Slot::Field { address, path: *path, ty: *ty },
                            );
                            assert(bound.bindings.take(old(self).bindings@.len() as int)
                                =~= old(self).bindings@);
                        }
                        self.constrain(*symbol, ty, path, level);
                        proof {
                            lemma_only_binds(old(self).st(), bound, self.st());
                        }
                        return;
                    }
                }
                let mark: usize = self.diagnostics.len();
                match self.resolve(node) {
                    Some(slot) => {
                        let ghost resolved = self.st();
                        self.matched(node, &slot, ty, address, path, level);
                        proof {
                            lemma_only_binds(old(self).st(), resolved, self.st());
                        }
                    },
                    None => {
                        let ghost resolved = self.st();
                        match kind {
                            // A record giving only some of its fields is a pattern
                            // rather than a value.
                            ExprKind::Record(_) => {
                                self.partial(node, ty, address, path, level);
                                proof {
                                    lemma_only_binds(old(self).st(), resolved, self.st());
                                }
                            },
                            // Already reported by an earlier pass.
                            ExprKind::Subquery(_) | ExprKind::Error => {
                                level.building = false;
                            },
                            _ => {
                                level.building = false;
                                if self.diagnostics.len() == mark {
                                    self.report(
                                        node,
                                        Code::RejectUnresolvedAccess,
                                        SAY_UNRESOLVED,
                                    );
                                }
                            },
                        }
                    },
                }
            },
        }
    }

    // ---- one level's key --------------------------------------------------------

    /// A whole record key in one pattern. A stored key is its top-level fields back to
    /// back, so every whole-key question decomposes into the per-field ones.
    pub fn whole_key(
        &mut self,
        node: NodeId,
        key_ty: &PredicateTy,
        tys: &Vec<(NameKey, PredicateTy)>,
        address: Address,
        level: &mut SeekBuilder,
    )
        requires
            old(self).ok(),
            old(self).cx().ast.has(node),
        ensures
            (final(self).st(), final(level)@) == model::whole_key(
                old(self).cx(),
                old(self).st(),
                node,
                *key_ty,
                tys@,
                address,
                old(level)@,
            ),
            final(self).cx() == old(self).cx(),
            final(self).ok(),
            only_binds(old(self).st(), final(self).st()),
    {
        proof {
            assert(self.bindings@.take(self.bindings@.len() as int) =~= self.bindings@);
        }
        let ast: &'a Ast = self.ast;
        match ast.store().kind(node) {
            ExprKind::Wildcard => {
                level.building = false;
                return;
            },
            ExprKind::Var(symbol) => {
                if !self.is_bound(*symbol) {
                    level.building = false;
                    self.bindings.push((*symbol, Slot::Key { address, ty: key_ty.clone() }));
                    proof {
                        lemma_ok_binding(
                            old(self).cx(),
                            old(self).st(),
                            *symbol,
                            Slot::Key { address, ty: *key_ty },
                        );
                        assert(self.bindings@.take(old(self).bindings@.len() as int)
                            =~= old(self).bindings@);
                    }
                    return;
                }
            },
            _ => {},
        }
        let Some(slot) = self.resolve(node) else {
            level.building = false;
            return;
        };
        let ghost start = self.st();
        let mut k: usize = 0;
        while k < tys.len()
            invariant
                self.ok(),
                self.cx() == old(self).cx(),
                self.cx().ast.has(node),
                slot_ok(self.cx(), slot),
                k <= tys@.len(),
                (self.st(), level@) == model::whole_fields(
                    old(self).cx(),
                    start,
                    node,
                    slot,
                    tys@,
                    k as nat,
                    address,
                    old(level)@,
                ),
                only_binds(old(self).st(), self.st()),
            decreases tys@.len() - k,
        {
            let ghost before = self.st();
            match self.field_slot(node, &slot, Symbol::Schema(tys[k].0)) {
                None => {
                    level.building = false;
                    proof {
                        lemma_only_binds(old(self).st(), before, self.st());
                    }
                },
                Some(field) => {
                    let ghost found = self.st();
                    self.matched(node, &field, &tys[k].1, address, &FieldPath::field(k), level);
                    proof {
                        lemma_only_binds(before, found, self.st());
                        lemma_only_binds(old(self).st(), before, self.st());
                    }
                },
            }
            k += 1;
        }
    }

    /// A level's key pattern, field by field in declared order, which is encoding order
    /// and so the order a seek prefix has to be built in.
    pub fn key(
        &mut self,
        node: NodeId,
        key_ty: &PredicateTy,
        address: Address,
        level: &mut SeekBuilder,
    )
        requires
            old(self).ok(),
            old(self).cx().ast.has(node),
        ensures
            (final(self).st(), final(level)@) == model::key(
                old(self).cx(),
                old(self).st(),
                node,
                *key_ty,
                address,
                old(level)@,
            ),
            final(self).cx() == old(self).cx(),
            final(self).ok(),
            only_binds(old(self).st(), final(self).st()),
    {
        proof {
            assert(self.bindings@.take(self.bindings@.len() as int) =~= self.bindings@);
        }
        let ast: &'a Ast = self.ast;
        match (key_ty, ast.store().kind(node)) {
            (PredicateTy::Record(tys), ExprKind::Record(fields)) => {
                let mut k: usize = 0;
                while k < tys.len()
                    invariant
                        self.ok(),
                        self.cx() == old(self).cx(),
                        ast == self.ast,
                        ast.has(node),
                        ast.kind(node) == ExprKind::Record(*fields),
                        k <= tys@.len(),
                        (self.st(), level@) == model::key_fields(
                            old(self).cx(),
                            old(self).st(),
                            fields@,
                            tys@,
                            k as nat,
                            address,
                            old(level)@,
                        ),
                        only_binds(old(self).st(), self.st()),
                    decreases tys@.len() - k,
                {
                    let name = Symbol::Schema(tys[k].0);
                    proof {
                        lemma_piece(self.cx(), node, *fields, name);
                    }
                    let ghost before = self.st();
                    match find_pattern(fields, name) {
                        Some(pattern) => {
                            self.field(pattern, &tys[k].1, address, &FieldPath::field(k), level);
                            proof {
                                lemma_only_binds(old(self).st(), before, self.st());
                            }
                        },
                        // An unmentioned field is a wildcard, so it constrains nothing
                        // and closes the seek prefix.
                        None => {
                            level.building = false;
                        },
                    }
                    k += 1;
                }
            },
            (PredicateTy::Record(tys), _) => {
                self.whole_key(node, key_ty, tys, address, level);
            },
            _ => {
                self.field(node, key_ty, address, &FieldPath::field(0), level);
            },
        }
    }
}

proof fn lemma_constant_fields_fail(
    cx: Cx,
    st: St,
    node: NodeId,
    fields: Seq<(Symbol, NodeId)>,
    tys: Seq<(NameKey, PredicateTy)>,
    k: nat,
    n: nat,
)
    requires
        k <= n,
        model::constant_fields(cx, st, node, fields, tys, k) is None,
    ensures
        model::constant_fields(cx, st, node, fields, tys, n) is None,
    decreases n,
{
    if k < n {
        lemma_constant_fields_fail(cx, st, node, fields, tys, k, (n - 1) as nat);
    }
}

proof fn lemma_hoisted_take(hoisted: Seq<(NodeId, Symbol)>, node: NodeId, n: int)
    requires
        0 <= n <= hoisted.len(),
        model::hoisted_row(hoisted.take(n), node) is Some,
    ensures
        model::hoisted_row(hoisted, node) == model::hoisted_row(hoisted.take(n), node),
    decreases hoisted.len(),
{
    if n < hoisted.len() {
        assert(hoisted.drop_last().take(n) =~= hoisted.take(n));
        lemma_hoisted_take(hoisted.drop_last(), node, n);
    } else {
        assert(hoisted.take(n) =~= hoisted);
    }
}

proof fn lemma_fetched_take(
    fetched: Seq<(Address, FieldPath, Address)>,
    address: Address,
    path: FieldPath,
    n: int,
)
    requires
        0 <= n <= fetched.len(),
        model::fetched_register(fetched.take(n), address, path) is Some,
    ensures
        model::fetched_register(fetched, address, path) == model::fetched_register(
            fetched.take(n),
            address,
            path,
        ),
    decreases fetched.len(),
{
    if n < fetched.len() {
        assert(fetched.drop_last().take(n) =~= fetched.take(n));
        lemma_fetched_take(fetched.drop_last(), address, path, n);
    } else {
        assert(fetched.take(n) =~= fetched);
    }
}

} // verus!
