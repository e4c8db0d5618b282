//! What flattening a query means: where each value lives, what each statement becomes,
//! and what is reported, as functions of the tree and the state so far.
use vstd::prelude::*;

use crate::boxed;
use crate::diag::{Code, Report};
use crate::iter::Address;
use crate::plan::{Access, FieldPath, Residual, ResidualOp, SeekKey, SeekKeyPart};
use crate::reorder::Placement;
use crate::schema;
use crate::schema::{NameKey, Names, PredicateId, PredicateTy, Schema, Symbol};
use crate::syntax::{Ast, ExprKind, FieldRef, Literal, NodeId, NodeSpan};
use crate::text;
use crate::tuple;
use crate::tuple::{MARK_RECORD, MARK_TERM};

verus! {

// ---- what is said -----------------------------------------------------------

pub const SAY_VALUE_BIND: &'static str =
    "binding a variable to a value that is in no register is not implemented yet; it needs a derived bind";

pub const SAY_ALREADY: &'static str = "an earlier statement already says what `";

pub const SAY_ALREADY_IS: &'static str =
    "` is; matching two values against each other is not implemented yet";

pub const SAY_NEGATED_INSIDE: &'static str = "negation inside a subquery is not implemented yet";

pub const SAY_SHADOWS: &'static str = "this subquery binds `";

pub const SAY_SHADOWS_OUTER: &'static str =
    "`, which the query around it also binds; a subquery that reuses an outer name is not implemented yet — rename it";

pub const SAY_BRANCH: &'static str =
    "every branch of a disjunction has to be a fact pattern of its own for now; an alternation inside a pattern is not implemented yet";

pub const SAY_NO_GENERATOR: &'static str = "a statement has to match facts; this one matches nothing";

pub const SAY_NOTHING_BINDS: &'static str = "nothing binds `";

pub const SAY_WILDCARD_MEANT: &'static str =
    "`, and inside a negation that would quietly mean *any* matching fact rather than a value — write `_` if that is what you mean";

pub const SAY_CAPTURED: &'static str =
    "`: every variable has to be captured by a fact pattern's key";

pub const SAY_NEGATED_SUBQUERY: &'static str =
    "negating a subquery is not implemented yet; a negated group needs a level inside a test, which the machine has no shape for";

pub const SAY_NEGATED_NEST: &'static str =
    "a fact pattern inside a negation's key is not implemented yet: hoisting it out would answer differently when it matches nothing — bind it in a statement of its own first";

pub const SAY_VALUE_MATCH_ROW: &'static str =
    "matching on a fact's value is not implemented yet; a value is fetched per row, and residuals run inside the scan";

pub const SAY_VALUE_MATCH: &'static str = "matching on a fact's value is not implemented yet";

pub const SAY_NOT_PROJECTABLE: &'static str = "this cannot be projected: a head has to name a value";

pub const SAY_COMPARE_FIELDS: &'static str =
    "matching these two against each other is not implemented yet; both sides have to be a field of a row";

pub const SAY_SAME_ROW: &'static str =
    "matching two fields of the *same* row against each other is not implemented yet";

pub const SAY_DIFFERENT_FIELD: &'static str =
    "` is at a different field in two branches; a variable a disjunction binds has to be in the same place in every branch, because the plan reads it from one";

pub const SAY_QUOTE: &'static str = "`";

pub const SAY_NO_PIECE: &'static str = "this is not a piece of that value";

pub const SAY_TWO_PATTERNS: &'static str =
    "matching two patterns against each other is not implemented yet";

pub const SAY_PREFIX_FIELD: &'static str = "this prefix is not a pattern for that field's type";

pub const SAY_PREFIX_VARIABLE: &'static str = "this prefix is not a pattern for that variable's type";

pub const SAY_ALTERNATION: &'static str =
    "an alternation inside a pattern is not implemented yet; write it as                      whole alternatives — `test.Foo {…} | test.Foo {…}`";

pub const SAY_NEVER: &'static str =
    "`never` inside a pattern is not implemented yet; as a statement or a                      branch of a disjunction it works";

pub const SAY_UNRESOLVED: &'static str =
    "this read does not resolve to a value that can match a key field";

pub const SAY_WHOLE_KEY: &'static str =
    "matching a whole key against a record field is not implemented yet; a stored key is flat and a record field is wrapped, so the two are not the same bytes";

pub const SAY_REPEATED: &'static str =
    "matching one variable against two fields of the same fact is not implemented yet; it needs a same-row equality";

pub const SAY_NO_REFERENCE: &'static str = "this field does not hold a reference to that fact";

pub const SAY_PATTERN: &'static str = "matching this against a pattern is not implemented yet";

pub const SAY_FETCH_POSITION: &'static str =
    "reading through a reference in this position is not implemented yet; name the reference in a statement of its own first";

pub const SAY_FETCH_VALUE: &'static str =
    "reading through a reference held in a fact's value is not implemented yet; a fetch follows a reference in a key";

/// What a hoisted row's name begins with: no name a query can write.
pub const HOISTED: &'static str = "%h";

// ---- what there is ----------------------------------------------------------

/// Where a pattern's value lives when the plan runs.
#[derive(Debug)]
#[allow(inconsistent_fields)]
pub enum Slot {
    /// The whole row of a loop level. `predicate` is `None` for the empty relation,
    /// whose level no row ever fills.
    Row { address: Address, predicate: Option<PredicateId> },
    /// A row's whole key: every key field at once.
    Key { address: Address, ty: PredicateTy },
    /// A key field of a row, reached by a path.
    Field { address: Address, path: FieldPath, ty: PredicateTy },
    /// A row's value side. Projectable; never matched.
    Value { address: Address, ty: PredicateTy },
    /// A constant, held as the literal's own node and substituted at every use.
    Const(NodeId),
}

impl Clone for Slot {
    fn clone(&self) -> (slot: Self)
        ensures
            slot == *self,
    {
        match self {
            Slot::Row { address, predicate } => Slot::Row {
                address: *address,
                predicate: *predicate,
            },
            Slot::Key { address, ty } => Slot::Key { address: *address, ty: ty.clone() },
            Slot::Field { address, path, ty } => Slot::Field {
                address: *address,
                path: path.clone(),
                ty: ty.clone(),
            },
            Slot::Value { address, ty } => Slot::Value { address: *address, ty: ty.clone() },
            Slot::Const(node) => Slot::Const(*node),
        }
    }
}

/// One alternative of a generator: a predicate, and the key pattern its rows match.
#[derive(Debug, Clone, Copy, PartialEq, Eq, Structural)]
pub struct Alt {
    pub predicate: PredicateId,
    pub key: NodeId,
}

/// A statement that ranges over rows. No alternative is `never`, one an ordinary fact
/// pattern, several a disjunction.
#[derive(Debug)]
pub struct Gen {
    pub alternatives: Box<[Alt]>,
    /// The variable the whole row binds.
    pub row: Option<Symbol>,
    pub span: NodeSpan,
    pub placement: Placement,
}

/// A name for a value that is already somewhere.
#[derive(Debug, Clone, Copy, PartialEq, Eq, Structural)]
pub struct Alias {
    pub pattern: NodeId,
    pub value: NodeId,
    pub span: NodeSpan,
}

/// A pattern the value at a place has to match.
#[derive(Debug, Clone, Copy, PartialEq, Eq, Structural)]
pub struct Constraint {
    pub var: NodeId,
    pub span: NodeSpan,
}

/// One statement before an order is chosen.
#[derive(Debug)]
pub enum Stmt {
    Scan(Gen),
    /// A statement whose rows must not exist.
    Negate(Gen),
    Alias(Alias),
    Constrain(Constraint),
}

impl Stmt {
    pub open spec fn placed(self) -> Placement {
        match self {
            Stmt::Scan(generator) => generator.placement,
            Stmt::Negate(generator) => generator.placement,
            Stmt::Alias(_) => Placement::Floating,
            Stmt::Constrain(_) => Placement::Floating,
        }
    }

    pub open spec fn at(self) -> NodeSpan {
        match self {
            Stmt::Scan(generator) => generator.span,
            Stmt::Negate(generator) => generator.span,
            Stmt::Alias(alias) => alias.span,
            Stmt::Constrain(constraint) => constraint.span,
        }
    }

    /// Whether the query wrote this statement, or it was invented.
    pub fn placement(&self) -> (placement: Placement)
        ensures
            placement == self.placed(),
    {
        match self {
            Stmt::Scan(generator) => generator.placement,
            Stmt::Negate(generator) => generator.placement,
            Stmt::Alias(_) => Placement::Floating,
            Stmt::Constrain(_) => Placement::Floating,
        }
    }

    pub fn span(&self) -> (span: NodeSpan)
        ensures
            span == self.at(),
    {
        match self {
            Stmt::Scan(generator) => generator.span,
            Stmt::Negate(generator) => generator.span,
            Stmt::Alias(alias) => alias.span,
            Stmt::Constrain(constraint) => constraint.span,
        }
    }
}

/// Two places whose values have to be equal per row.
#[derive(Debug)]
pub struct Compare {
    pub left: Slot,
    pub right: Slot,
    pub at: NodeId,
}

/// The tree and the schema a query is flattened against.
pub struct Cx {
    pub ast: Ast,
    pub schema: Schema,
}

/// Everything flattening knows at one point.
#[verifier::ext_equal]
pub struct St {
    /// Variable and where its value lives, in the order they were bound.
    pub bindings: Seq<(Symbol, Slot)>,
    pub compares: Seq<Compare>,
    /// Nested fact pattern and the row variable it was hoisted to.
    pub hoisted: Seq<(NodeId, Symbol)>,
    /// A reference already followed, and the register the fact it names is in.
    pub fetched: Seq<(Address, FieldPath, Address)>,
    /// Variable and a pattern its value has to match.
    pub constraints: Seq<(Symbol, NodeId)>,
    /// The variables whose constraints a capture has already applied.
    pub constrained: Seq<Symbol>,
    pub names: Names,
    pub reports: Seq<Report>,
    /// Whether every slice made so far holds what it was made of.
    pub sealed: bool,
}

impl St {
    /// The state after making slices that hold what they were made of, or do not.
    pub open spec fn sealing(self, holds: bool) -> St {
        St { sealed: self.sealed && holds, ..self }
    }

    pub open spec fn reporting(self, report: Report) -> St {
        St { reports: self.reports.push(report), ..self }
    }

    pub open spec fn binding(self, symbol: Symbol, slot: Slot) -> St {
        St { bindings: self.bindings.push((symbol, slot)), ..self }
    }
}

/// The state after reporting at a node.
pub open spec fn report(cx: Cx, st: St, node: NodeId, code: Code, message: Seq<char>) -> St {
    st.reporting(Report { code, message, span: cx.ast.span(node) })
}

/// A child that stands before its parent, and is constant if the parent is.
pub open spec fn below(cx: Cx, parent: NodeId, child: NodeId) -> bool {
    child.0 < parent.0 && rank(cx, child) <= rank(cx, parent)
}

/// A constant node comes before any that is not: what a variable is bound to is a
/// constant, and a constant mentions no variable.
pub open spec fn rank(cx: Cx, node: NodeId) -> nat {
    if cx.ast.constant(node) {
        0
    } else {
        1
    }
}

// ---- looking up -------------------------------------------------------------

/// Where a variable lives: the last binding of it.
pub open spec fn lookup(bindings: Seq<(Symbol, Slot)>, symbol: Symbol) -> Option<Slot>
    decreases bindings.len(),
{
    if bindings.len() == 0 {
        None
    } else if bindings.last().0 == symbol {
        Some(bindings.last().1)
    } else {
        lookup(bindings.drop_last(), symbol)
    }
}

/// The row variable a fact pattern was hoisted to: the first time it was.
pub open spec fn hoisted_row(hoisted: Seq<(NodeId, Symbol)>, node: NodeId) -> Option<Symbol>
    decreases hoisted.len(),
{
    if hoisted.len() == 0 {
        None
    } else if hoisted_row(hoisted.drop_last(), node) is Some {
        hoisted_row(hoisted.drop_last(), node)
    } else if hoisted.last().0 == node {
        Some(hoisted.last().1)
    } else {
        None
    }
}

/// The register a reference was followed into: the first time it was.
pub open spec fn fetched_register(
    fetched: Seq<(Address, FieldPath, Address)>,
    address: Address,
    path: FieldPath,
) -> Option<Address>
    decreases fetched.len(),
{
    if fetched.len() == 0 {
        None
    } else if fetched_register(fetched.drop_last(), address, path) is Some {
        fetched_register(fetched.drop_last(), address, path)
    } else if fetched.last().0 == address && fetched.last().1 == path {
        Some(fetched.last().2)
    } else {
        None
    }
}

/// The pattern a record gives for `name`: the first.
pub open spec fn field_pattern(fields: Seq<(Symbol, NodeId)>, name: Symbol) -> Option<NodeId>
    decreases fields.len(),
{
    if fields.len() == 0 {
        None
    } else if field_pattern(fields.drop_last(), name) is Some {
        field_pattern(fields.drop_last(), name)
    } else if fields.last().0 == name {
        Some(fields.last().1)
    } else {
        None
    }
}

/// A record type's field by name, with its position, which is its position in the
/// encoding.
pub open spec fn field_of(ty: PredicateTy, name: Symbol) -> Option<(usize, PredicateTy)> {
    match (ty, name) {
        (PredicateTy::Record(fields), Symbol::Schema(key)) => match schema::field_position(fields@, key) {
            Some(at) => Some((at as usize, fields@[at as int].1)),
            None => None,
        },
        _ => None,
    }
}

/// The pattern an access chain reads from: `X` in `X.a.b?`.
pub open spec fn chain_root(cx: Cx, node: NodeId) -> NodeId
    decreases node.0,
{
    match cx.ast.kind(node) {
        ExprKind::Access(_, base) => if base.0 < node.0 {
            chain_root(cx, base)
        } else {
            node
        },
        ExprKind::Select(_, base) => if base.0 < node.0 {
            chain_root(cx, base)
        } else {
            node
        },
        _ => node,
    }
}

/// Whether a node denotes a place: something a name can be another name for.
pub open spec fn names_a_location(cx: Cx, node: NodeId) -> bool
    decreases node.0,
{
    match cx.ast.kind(node) {
        ExprKind::Var(_) => true,
        ExprKind::Fact(_, _) => true,
        ExprKind::Access(_, base) => base.0 < node.0 && names_a_location(cx, base),
        ExprKind::Select(_, base) => base.0 < node.0 && names_a_location(cx, base),
        _ => false,
    }
}

/// Whether a pattern has a fact pattern inside it.
pub open spec fn nests_a_generator(cx: Cx, node: NodeId) -> bool
    decreases node.0,
{
    match cx.ast.kind(node) {
        ExprKind::Fact(_, _) => true,
        ExprKind::Record(fields) => exists|i: int|
            0 <= i < fields@.len() && (#[trigger] fields@[i]).1.0 < node.0 && nests_a_generator(
                cx,
                fields@[i].1,
            ),
        ExprKind::Access(_, base) => base.0 < node.0 && nests_a_generator(cx, base),
        ExprKind::Select(_, base) => base.0 < node.0 && nests_a_generator(cx, base),
        _ => false,
    }
}

/// Every bare variable of a pattern, at any depth, in order.
pub open spec fn bare_variables(cx: Cx, node: NodeId) -> Seq<Symbol>
    decreases node.0, 1nat, 0nat,
{
    match cx.ast.kind(node) {
        ExprKind::Var(symbol) => seq![symbol],
        ExprKind::Record(fields) => bare_variables_of(cx, node, fields@, fields@.len()),
        _ => Seq::empty(),
    }
}

/// Those of the first `k` fields of record `node`.
pub open spec fn bare_variables_of(
    cx: Cx,
    node: NodeId,
    fields: Seq<(Symbol, NodeId)>,
    k: nat,
) -> Seq<Symbol>
    decreases node.0, 0nat, k,
{
    if k == 0 {
        Seq::empty()
    } else {
        bare_variables_of(cx, node, fields, (k - 1) as nat) + (if fields[k - 1].1.0 < node.0 {
            bare_variables(cx, fields[k - 1].1)
        } else {
            Seq::empty()
        })
    }
}

// ---- where a value lives ----------------------------------------------------

/// A reference, as the row it names. Every other slot passes through.
pub open spec fn dereference(cx: Cx, st: St, node: NodeId, slot: Slot) -> (St, Option<Slot>) {
    match slot {
        Slot::Field { address, path, ty: PredicateTy::Fact(predicate) } => match fetched_register(
            st.fetched,
            address,
            path,
        ) {
            Some(register) => (
                st,
                Some(Slot::Row { address: register, predicate: Some(predicate) }),
            ),
            None => (report(cx, st, node, Code::NyiFactField, SAY_FETCH_POSITION@), None),
        },
        Slot::Value { ty: PredicateTy::Fact(_), .. } => (
            report(cx, st, node, Code::NyiFactField, SAY_FETCH_VALUE@),
            None,
        ),
        _ => (st, Some(slot)),
    }
}

/// The slot of key field `name` of a row of `predicate`.
pub open spec fn row_field(
    cx: Cx,
    address: Address,
    predicate: Option<PredicateId>,
    name: Symbol,
) -> Option<Slot> {
    match predicate {
        Some(id) => match cx.schema.predicate(id) {
            Some(declared) => match field_of(declared.key, name) {
                Some((idx, ty)) => Some(
                    Slot::Field { address, path: FieldPath::of(idx, Seq::empty()), ty },
                ),
                None => None,
            },
            None => None,
        },
        None => None,
    }
}

/// The path to a key field has no steps, as it was made.
pub open spec fn place_sealed(slot: Option<Slot>) -> bool {
    slot matches Some(Slot::Field { path, .. }) ==> path.inner() == Seq::<usize>::empty()
}

/// The slot of one field inside another slot.
pub open spec fn field_slot(cx: Cx, st: St, node: NodeId, slot: Slot, name: Symbol) -> (
    St,
    Option<Slot>,
) {
    match slot {
        Slot::Row { address, predicate } => (
            st.sealing(place_sealed(row_field(cx, address, predicate, name))),
            row_field(cx, address, predicate, name),
        ),
        Slot::Key { address, ty } => match field_of(ty, name) {
            Some((idx, field_ty)) => (
                st.sealing(FieldPath::sealed(idx, Seq::empty())),
                Some(
                    Slot::Field { address, path: FieldPath::of(idx, Seq::empty()), ty: field_ty },
                ),
            ),
            None => (st, None),
        },
        Slot::Field { address, path, ty } => match ty {
            PredicateTy::Record(_) => match field_of(ty, name) {
                Some((idx, field_ty)) => (
                    st.sealing(FieldPath::sealed(path.top(), path.inner().push(idx))),
                    Some(
                        Slot::Field {
                            address,
                            path: FieldPath::of(path.top(), path.inner().push(idx)),
                            ty: field_ty,
                        },
                    ),
                ),
                None => (st, None),
            },
            PredicateTy::Fact(_) => {
                let (after, row) = dereference(cx, st, node, slot);
                match row {
                    Some(Slot::Row { address: register, predicate }) => (
                        after.sealing(place_sealed(row_field(cx, register, predicate, name))),
                        row_field(cx, register, predicate, name),
                    ),
                    _ => (after, None),
                }
            },
            _ => (st, None),
        },
        Slot::Const(folded) => match cx.ast.kind(folded) {
            ExprKind::Record(fields) => match field_pattern(fields@, name) {
                Some(piece) => (st, Some(Slot::Const(piece))),
                None => (st, None),
            },
            _ => (st, None),
        },
        Slot::Value { .. } => (st, None),
    }
}

/// The value side of the row a slot is, if the slot is a row of a predicate with one.
pub open spec fn value_slot(cx: Cx, slot: Option<Slot>) -> Option<Slot> {
    match slot {
        Some(Slot::Row { address, predicate: Some(id) }) => match cx.schema.predicate(id) {
            Some(declared) => match declared.value {
                Some(ty) => Some(Slot::Value { address, ty }),
                None => None,
            },
            None => None,
        },
        _ => None,
    }
}

/// Where an expression's value lives, if it denotes a place.
pub open spec fn resolve(cx: Cx, st: St, node: NodeId) -> (St, Option<Slot>)
    decreases node.0,
{
    if cx.ast.constant(node) {
        (st, Some(Slot::Const(node)))
    } else {
        match cx.ast.kind(node) {
            ExprKind::Var(symbol) => (st, lookup(st.bindings, symbol)),
            ExprKind::Fact(_, _) => (
                st,
                match hoisted_row(st.hoisted, node) {
                    Some(row) => lookup(st.bindings, row),
                    None => None,
                },
            ),
            ExprKind::Access(field, base) => if base.0 < node.0 {
                let (s1, found) = resolve(cx, st, base);
                match found {
                    Some(slot) => {
                        let (s2, place) = dereference(cx, s1, node, slot);
                        match (field, place) {
                            (FieldRef::Value, _) => (s2, value_slot(cx, place)),
                            (FieldRef::Key(name), Some(inner)) => field_slot(
                                cx,
                                s2,
                                node,
                                inner,
                                name,
                            ),
                            (FieldRef::Key(_), None) => (s2, None),
                        }
                    },
                    None => (s1, None),
                }
            } else {
                (st, None)
            },
            _ => (st, None),
        }
    }
}

/// A constant a key field is matched against: a whole value, or the bytes its encoding
/// begins with.
pub enum Bytes {
    Whole(Seq<u8>),
    Prefix(Seq<u8>),
}

/// The bytes a pattern determines, if it determines all of them. A record does only if
/// it gives every field of its type.
pub open spec fn constant(cx: Cx, st: St, node: NodeId, ty: PredicateTy) -> Option<Bytes>
    decreases rank(cx, node), node.0, 1nat, 0nat,
{
    match (cx.ast.kind(node), ty) {
        (ExprKind::Var(symbol), _) => match lookup(st.bindings, symbol) {
            Some(Slot::Const(folded)) => if cx.ast.constant(folded) {
                constant(cx, st, folded, ty)
            } else {
                None
            },
            _ => None,
        },
        (ExprKind::Lit(Literal::Int(value)), PredicateTy::Int) => Some(
            Bytes::Whole(tuple::enc_i64(value)),
        ),
        (ExprKind::Lit(Literal::Str(symbol)), PredicateTy::Str) => match st.names.text(symbol) {
            Some(text) => Some(Bytes::Whole(tuple::enc_str(text))),
            None => None,
        },
        (ExprKind::Prefix(symbol), PredicateTy::Str) => match st.names.text(symbol) {
            Some(text) => Some(Bytes::Prefix(tuple::enc_str_prefix(text))),
            None => None,
        },
        (ExprKind::Record(fields), PredicateTy::Record(tys)) => match constant_fields(
            cx,
            st,
            node,
            fields@,
            tys@,
            tys@.len(),
        ) {
            Some(bytes) => Some(Bytes::Whole(seq![MARK_RECORD] + bytes + seq![MARK_TERM])),
            None => None,
        },
        _ => None,
    }
}

/// The bytes of the first `k` fields of the type, back to back.
pub open spec fn constant_fields(
    cx: Cx,
    st: St,
    node: NodeId,
    fields: Seq<(Symbol, NodeId)>,
    tys: Seq<(NameKey, PredicateTy)>,
    k: nat,
) -> Option<Seq<u8>>
    decreases rank(cx, node), node.0, 0nat, k,
{
    if k == 0 {
        Some(Seq::empty())
    } else {
        match (
            constant_fields(cx, st, node, fields, tys, (k - 1) as nat),
            field_pattern(fields, Symbol::Schema(tys[k - 1].0)),
        ) {
            (Some(before), Some(piece)) => if below(cx, node, piece) {
                match constant(cx, st, piece, tys[k - 1].1) {
                    Some(Bytes::Whole(bytes)) => Some(before + bytes),
                    _ => None,
                }
            } else {
                None
            },
            _ => None,
        }
    }
}

// ---- binding a pattern ------------------------------------------------------

/// Bind a pattern to the place it names, piece by piece.
pub open spec fn bind_pattern(cx: Cx, st: St, pattern: NodeId, slot: Slot) -> St
    decreases pattern.0, 1nat, 0nat,
{
    match cx.ast.kind(pattern) {
        ExprKind::Var(symbol) => match lookup(st.bindings, symbol) {
            Some(bound) => St {
                compares: st.compares.push(Compare { left: bound, right: slot, at: pattern }),
                ..st
            },
            None => st.binding(symbol, slot),
        },
        ExprKind::Wildcard => st,
        ExprKind::Record(fields) => bind_pieces(cx, st, pattern, slot, fields@, fields@.len()),
        _ => report(cx, st, pattern, Code::NyiBindUnification, SAY_TWO_PATTERNS@),
    }
}

/// The first `k` pieces of a record pattern.
pub open spec fn bind_pieces(
    cx: Cx,
    st: St,
    pattern: NodeId,
    slot: Slot,
    fields: Seq<(Symbol, NodeId)>,
    k: nat,
) -> St
    decreases pattern.0, 0nat, k,
{
    if k == 0 {
        st
    } else {
        let s1 = bind_pieces(cx, st, pattern, slot, fields, (k - 1) as nat);
        let (name, piece) = fields[k - 1];
        let (s2, field) = field_slot(cx, s1, piece, slot, name);
        match field {
            Some(place) => if piece.0 < pattern.0 {
                bind_pattern(cx, s2, piece, place)
            } else {
                s2
            },
            None => if s2.reports.len() == s1.reports.len() {
                report(cx, s2, piece, Code::RejectTypeMismatch, SAY_NO_PIECE@)
            } else {
                s2
            },
        }
    }
}

// ---- building a seek --------------------------------------------------------

/// The seek and the filters of one level, built field by field. `building` is whether
/// the seek prefix is still contiguous from field 0: the first field that is not fully
/// determined closes it, and everything later filters instead.
#[verifier::ext_equal]
pub struct Seek {
    pub parts: Seq<SeekKeyPart>,
    pub residuals: Seq<Residual>,
    pub building: bool,
}

impl Seek {
    pub open spec fn empty() -> Seek {
        Seek { parts: Seq::empty(), residuals: Seq::empty(), building: true }
    }

    pub open spec fn closed(self) -> Seek {
        Seek { building: false, ..self }
    }

    /// Narrow by `part` while the prefix is building, else filter by `op` at `path`.
    pub open spec fn narrowed(self, part: SeekKeyPart, path: FieldPath, op: ResidualOp) -> Seek {
        if self.building {
            Seek { parts: self.parts.push(part), ..self }
        } else {
            Seek { residuals: self.residuals.push(Residual { path, op }), ..self }
        }
    }

    /// Every part is known when the plan is built.
    pub open spec fn all_constant(self) -> bool {
        forall|i: int| 0 <= i < self.parts.len() ==> (#[trigger] self.parts[i]) is Bytes
    }

    /// The slices of the finished seek and of its filters hold what they are made of.
    pub open spec fn sealed(self) -> bool {
        &&& self.all_constant() ==> boxed::boxed(constant_bytes(self.parts))@ == constant_bytes(
            self.parts,
        )
        &&& !self.all_constant() ==> boxed::boxed(self.parts)@ == self.parts
        &&& boxed::boxed(self.residuals)@ == self.residuals
    }

    /// The finished seek: plain bytes where every part is constant, else the parts.
    pub open spec fn key(self) -> SeekKey {
        if self.all_constant() {
            SeekKey::Prefix(boxed::boxed(constant_bytes(self.parts)))
        } else {
            SeekKey::Composite(boxed::boxed(self.parts))
        }
    }
}

/// The bytes of the constant parts, back to back.
pub open spec fn constant_bytes(parts: Seq<SeekKeyPart>) -> Seq<u8>
    decreases parts.len(),
{
    if parts.len() == 0 {
        Seq::empty()
    } else {
        constant_bytes(parts.drop_last()) + (match parts.last() {
            SeekKeyPart::Bytes(bytes) => bytes@,
            _ => Seq::empty(),
        })
    }
}

/// The slice of a constant's bytes holds them.
pub open spec fn bytes_sealed(constant: Bytes) -> bool {
    match constant {
        Bytes::Whole(bytes) => boxed::boxed(bytes)@ == bytes,
        Bytes::Prefix(bytes) => boxed::boxed(bytes)@ == bytes,
    }
}

/// Narrow by a constant. A prefix can end a seek, but nothing may follow it in one.
pub open spec fn narrow_by(constant: Bytes, path: FieldPath, level: Seek) -> Seek {
    match constant {
        Bytes::Whole(bytes) => level.narrowed(
            SeekKeyPart::Bytes(boxed::boxed(bytes)),
            path,
            ResidualOp::EqConst(boxed::boxed(bytes)),
        ),
        Bytes::Prefix(bytes) => level.narrowed(
            SeekKeyPart::Bytes(boxed::boxed(bytes)),
            path,
            ResidualOp::Prefix(boxed::boxed(bytes)),
        ).closed(),
    }
}

/// The patterns the body constrains `symbol` by.
pub open spec fn patterns_of(constraints: Seq<(Symbol, NodeId)>, symbol: Symbol) -> Seq<NodeId>
    decreases constraints.len(),
{
    if constraints.len() == 0 {
        Seq::empty()
    } else if constraints.last().0 == symbol {
        patterns_of(constraints.drop_last(), symbol).push(constraints.last().1)
    } else {
        patterns_of(constraints.drop_last(), symbol)
    }
}

/// Narrow the field that captures a variable by every pattern the body constrains it
/// with. Without one, a capture closes the seek.
pub open spec fn constrain(
    cx: Cx,
    st: St,
    symbol: Symbol,
    ty: PredicateTy,
    path: FieldPath,
    level: Seek,
) -> (St, Seek) {
    let patterns = patterns_of(st.constraints, symbol);
    if patterns.len() == 0 {
        (st, level.closed())
    } else {
        constrain_each(
            cx,
            St { constrained: st.constrained.push(symbol), ..st },
            patterns,
            patterns.len(),
            ty,
            path,
            level,
        )
    }
}

/// The first `k` patterns.
pub open spec fn constrain_each(
    cx: Cx,
    st: St,
    patterns: Seq<NodeId>,
    k: nat,
    ty: PredicateTy,
    path: FieldPath,
    level: Seek,
) -> (St, Seek)
    decreases k,
{
    if k == 0 {
        (st, level)
    } else {
        let (s1, l1) = constrain_each(cx, st, patterns, (k - 1) as nat, ty, path, level);
        match constant(cx, s1, patterns[k - 1], ty) {
            Some(bytes) => (s1.sealing(bytes_sealed(bytes)), narrow_by(bytes, path, l1)),
            None => (
                report(cx, s1, patterns[k - 1], Code::RejectTypeMismatch, SAY_PREFIX_VARIABLE@),
                l1.closed(),
            ),
        }
    }
}

/// A field matched against something already bound: a splice while the seek is being
/// built, a filter once it is closed.
pub open spec fn matched(
    cx: Cx,
    st: St,
    node: NodeId,
    slot: Slot,
    ty: PredicateTy,
    address: Address,
    path: FieldPath,
    level: Seek,
) -> (St, Seek)
    decreases
            0nat,
            (match slot {
                Slot::Const(folded) => folded.0 as nat,
                _ => 0,
            }),
            2nat,
            0nat,
{
    match slot {
        Slot::Key { .. } => (
            report(cx, st, node, Code::NyiWholeKey, SAY_WHOLE_KEY@),
            level.closed(),
        ),
        Slot::Field { address: from, path: at, .. } => if from == address {
            (report(cx, st, node, Code::NyiRepeatedVariable, SAY_REPEATED@), level)
        } else {
            (
                st,
                level.narrowed(
                    SeekKeyPart::RegisterField { address: from, path: at },
                    path,
                    ResidualOp::EqRegisterField { address: from, path: at },
                ),
            )
        },
        Slot::Row { address: from, predicate } => match ty {
            PredicateTy::Fact(referenced) => if Some(referenced) == predicate {
                (
                    st,
                    level.narrowed(
                        SeekKeyPart::RegisterFactId(from),
                        path,
                        ResidualOp::EqRegisterFactId(from),
                    ),
                )
            } else {
                (report(cx, st, node, Code::RejectTypeMismatch, SAY_NO_REFERENCE@), level)
            },
            _ => (report(cx, st, node, Code::RejectTypeMismatch, SAY_NO_REFERENCE@), level),
        },
        Slot::Const(folded) => match constant(cx, st, folded, ty) {
            Some(bytes) => (st.sealing(bytes_sealed(bytes)), narrow_by(bytes, path, level)),
            None => if cx.ast.constant(folded) {
                partial(cx, st, folded, ty, address, path, level)
            } else {
                (st, level)
            },
        },
        Slot::Value { .. } => (
            report(cx, st, node, Code::NyiValueMatch, SAY_VALUE_MATCH@),
            level,
        ),
    }
}

/// A record pattern that gives only some of its fields: it closes the seek, and each
/// piece is matched one step deeper.
pub open spec fn partial(
    cx: Cx,
    st: St,
    node: NodeId,
    ty: PredicateTy,
    address: Address,
    path: FieldPath,
    level: Seek,
) -> (St, Seek)
    decreases rank(cx, node), node.0, 1nat, 0nat,
{
    match (cx.ast.kind(node), ty) {
        (ExprKind::Record(fields), PredicateTy::Record(tys)) => partial_fields(
            cx,
            st,
            node,
            fields@,
            tys@,
            tys@.len(),
            address,
            path,
            level.closed(),
        ),
        _ => (st, level.closed()),
    }
}

/// The first `k` fields of the type.
pub open spec fn partial_fields(
    cx: Cx,
    st: St,
    node: NodeId,
    fields: Seq<(Symbol, NodeId)>,
    tys: Seq<(NameKey, PredicateTy)>,
    k: nat,
    address: Address,
    path: FieldPath,
    level: Seek,
) -> (St, Seek)
    decreases rank(cx, node), node.0, 0nat, k,
{
    if k == 0 {
        (st, level)
    } else {
        let (s1, l1) = partial_fields(
            cx,
            st,
            node,
            fields,
            tys,
            (k - 1) as nat,
            address,
            path,
            level,
        );
        match field_pattern(fields, Symbol::Schema(tys[k - 1].0)) {
            Some(piece) => if below(cx, node, piece) {
                field(
                    cx,
                    s1.sealing(
                        FieldPath::sealed(path.top(), path.inner().push((k - 1) as usize)),
                    ),
                    piece,
                    tys[k - 1].1,
                    address,
                    FieldPath::of(path.top(), path.inner().push((k - 1) as usize)),
                    l1,
                )
            } else {
                (s1, l1)
            },
            None => (s1, l1),
        }
    }
}

/// One key field: seek, splice, filter, or capture.
pub open spec fn field(
    cx: Cx,
    st: St,
    node: NodeId,
    ty: PredicateTy,
    address: Address,
    path: FieldPath,
    level: Seek,
) -> (St, Seek)
    decreases rank(cx, node), node.0, 3nat, 0nat,
{
    match cx.ast.kind(node) {
        ExprKind::Wildcard => (st, level.closed()),
        ExprKind::Prefix(_) => match constant(cx, st, node, ty) {
            Some(bytes) => (st.sealing(bytes_sealed(bytes)), narrow_by(bytes, path, level)),
            None => (report(cx, st, node, Code::RejectTypeMismatch, SAY_PREFIX_FIELD@), level),
        },
        ExprKind::Disjunction(_) => (
            report(cx, st, node, Code::NyiDisjunction, SAY_ALTERNATION@),
            level.closed(),
        ),
        ExprKind::Never => (report(cx, st, node, Code::NyiNever, SAY_NEVER@), level.closed()),
        kind => if kind is Var && lookup(st.bindings, kind->Var_0) is None {
            let symbol = kind->Var_0;
            constrain(
                cx,
                st.binding(symbol, Slot::Field { address, path, ty }),
                symbol,
                ty,
                path,
                level,
            )
        } else {
            let (s1, found) = resolve(cx, st, node);
            match found {
                Some(slot) => matched(cx, s1, node, slot, ty, address, path, level),
                None => if kind is Record {
                    partial(cx, s1, node, ty, address, path, level)
                } else if s1.reports.len() == st.reports.len() && kind !is Subquery && kind
                    !is Error {
                    (
                        report(cx, s1, node, Code::RejectUnresolvedAccess, SAY_UNRESOLVED@),
                        level.closed(),
                    )
                } else {
                    (s1, level.closed())
                },
            }
        },
    }
}

/// A whole record key in one pattern: captured whole, or read field by field in
/// declared order.
pub open spec fn whole_key(
    cx: Cx,
    st: St,
    node: NodeId,
    key_ty: PredicateTy,
    tys: Seq<(NameKey, PredicateTy)>,
    address: Address,
    level: Seek,
) -> (St, Seek) {
    match cx.ast.kind(node) {
        ExprKind::Wildcard => (st, level.closed()),
        kind => if kind is Var && lookup(st.bindings, kind->Var_0) is None {
            (st.binding(kind->Var_0, Slot::Key { address, ty: key_ty }), level.closed())
        } else {
            let (s1, found) = resolve(cx, st, node);
            match found {
                None => (s1, level.closed()),
                Some(slot) => whole_fields(cx, s1, node, slot, tys, tys.len(), address, level),
            }
        },
    }
}

/// The first `k` fields of the key.
pub open spec fn whole_fields(
    cx: Cx,
    st: St,
    node: NodeId,
    slot: Slot,
    tys: Seq<(NameKey, PredicateTy)>,
    k: nat,
    address: Address,
    level: Seek,
) -> (St, Seek)
    decreases k,
{
    if k == 0 {
        (st, level)
    } else {
        let (s1, l1) = whole_fields(cx, st, node, slot, tys, (k - 1) as nat, address, level);
        let (s2, found) = field_slot(cx, s1, node, slot, Symbol::Schema(tys[k - 1].0));
        match found {
            None => (s2, l1.closed()),
            Some(inner) => matched(
                cx,
                s2.sealing(FieldPath::sealed((k - 1) as usize, Seq::empty())),
                node,
                inner,
                tys[k - 1].1,
                address,
                FieldPath::of((k - 1) as usize, Seq::empty()),
                l1,
            ),
        }
    }
}

/// A level's key pattern, field by field in declared order.
pub open spec fn key(
    cx: Cx,
    st: St,
    node: NodeId,
    key_ty: PredicateTy,
    address: Address,
    level: Seek,
) -> (St, Seek) {
    match (key_ty, cx.ast.kind(node)) {
        (PredicateTy::Record(tys), ExprKind::Record(fields)) => key_fields(
            cx,
            st,
            fields@,
            tys@,
            tys@.len(),
            address,
            level,
        ),
        (PredicateTy::Record(tys), _) => whole_key(cx, st, node, key_ty, tys@, address, level),
        _ => field(
            cx,
            st.sealing(FieldPath::sealed(0, Seq::empty())),
            node,
            key_ty,
            address,
            FieldPath::of(0, Seq::empty()),
            level,
        ),
    }
}

/// The first `k` fields of the key; one the pattern does not mention closes the seek.
pub open spec fn key_fields(
    cx: Cx,
    st: St,
    fields: Seq<(Symbol, NodeId)>,
    tys: Seq<(NameKey, PredicateTy)>,
    k: nat,
    address: Address,
    level: Seek,
) -> (St, Seek)
    decreases k,
{
    if k == 0 {
        (st, level)
    } else {
        let (s1, l1) = key_fields(cx, st, fields, tys, (k - 1) as nat, address, level);
        match field_pattern(fields, Symbol::Schema(tys[k - 1].0)) {
            Some(pattern) => field(
                cx,
                s1.sealing(FieldPath::sealed((k - 1) as usize, Seq::empty())),
                pattern,
                tys[k - 1].1,
                address,
                FieldPath::of((k - 1) as usize, Seq::empty()),
                l1,
            ),
            None => (s1, l1.closed()),
        }
    }
}

} // verus!
