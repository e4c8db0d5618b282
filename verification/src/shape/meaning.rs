//! What a parse means, read off the parse tree alone: no node is numbered and no name
//! interned. Lowering builds a tree that says exactly this.
pub mod faults;

use vstd::prelude::*;

use crate::cst::{CstNode, Rule, Span};
use crate::lexer;
use crate::lexer::Token;
use crate::lower;
use crate::lower::{Chain, Field, Lowered, Made};
use crate::print;
use crate::schema;
use crate::schema::{Names, PredicateId, Schema, Symbol, MAX_NAMES};
use crate::shape;
use crate::shape::{Said, Shape};
use crate::syntax;
use crate::syntax::{Ast, ExprKind, FieldRef, Literal, NodeId, Query, QueryStmt};
use crate::text;

verus! {

// ---- the meaning of a parse -------------------------------------------------

/// A field of a record: its name and what it is given.
pub type Entry = (Seq<char>, Shape);

/// What a node of the parse tree means.
pub enum Item {
    Query(Shape, Seq<Said>),
    Stmts(Seq<Said>),
    Stmt(Said),
    Pattern(Shape),
    Fields(Seq<Entry>),
    Field(Entry),
    Nothing,
}

/// The first query among some items.
pub open spec fn first_query(items: Seq<Item>) -> Option<(Shape, Seq<Said>)>
    decreases items.len(),
{
    if items.len() == 0 {
        None
    } else {
        match (first_query(items.drop_last()), items.last()) {
            (Some(query), _) => Some(query),
            (None, Item::Query(head, body)) => Some((head, body)),
            _ => None,
        }
    }
}

/// The patterns among them, in order.
pub open spec fn patterns(items: Seq<Item>) -> Seq<Shape>
    decreases items.len(),
{
    if items.len() == 0 {
        Seq::empty()
    } else {
        match items.last() {
            Item::Pattern(shape) => patterns(items.drop_last()).push(shape),
            _ => patterns(items.drop_last()),
        }
    }
}

/// The statements among them, in order.
pub open spec fn stmts(items: Seq<Item>) -> Seq<Said>
    decreases items.len(),
{
    if items.len() == 0 {
        Seq::empty()
    } else {
        match items.last() {
            Item::Stmt(said) => stmts(items.drop_last()).push(said),
            _ => stmts(items.drop_last()),
        }
    }
}

/// The last list of statements among them.
pub open spec fn last_stmts(items: Seq<Item>) -> Seq<Said>
    decreases items.len(),
{
    if items.len() == 0 {
        Seq::empty()
    } else {
        match items.last() {
            Item::Stmts(stmts) => stmts,
            _ => last_stmts(items.drop_last()),
        }
    }
}

/// The fields among them, in order.
pub open spec fn fields(items: Seq<Item>) -> Seq<Entry>
    decreases items.len(),
{
    if items.len() == 0 {
        Seq::empty()
    } else {
        match items.last() {
            Item::Field(entry) => fields(items.drop_last()).push(entry),
            _ => fields(items.drop_last()),
        }
    }
}

/// The first list of fields among them, or none.
pub open spec fn first_fields(items: Seq<Item>) -> Option<Seq<Entry>>
    decreases items.len(),
{
    if items.len() == 0 {
        None
    } else {
        match (first_fields(items.drop_last()), items.last()) {
            (Some(entries), _) => Some(entries),
            (None, Item::Fields(entries)) => Some(entries),
            _ => None,
        }
    }
}

/// An entry behind the ones its name does not come before.
pub open spec fn inserted(sorted: Seq<Entry>, entry: Entry) -> Seq<Entry>
    decreases sorted.len(),
{
    if sorted.len() == 0 || !text::before(entry.0, sorted.last().0) {
        sorted.push(entry)
    } else {
        inserted(sorted.drop_last(), entry).push(sorted.last())
    }
}

/// Some entries in the order of their names; two of the same name as they were.
pub open spec fn by_name(entries: Seq<Entry>) -> Seq<Entry>
    decreases entries.len(),
{
    if entries.len() == 0 {
        Seq::empty()
    } else {
        inserted(by_name(entries.drop_last()), entries.last())
    }
}

/// The first entry of each name.
pub open spec fn kept(entries: Seq<Entry>) -> Seq<Entry>
    decreases entries.len(),
{
    if entries.len() == 0 {
        Seq::empty()
    } else {
        let before = kept(entries.drop_last());
        if before.len() > 0 && before.last().0 == entries.last().0 {
            before
        } else {
            before.push(entries.last())
        }
    }
}

/// What is there, or an error.
pub open spec fn or_error(shape: Option<Shape>) -> Shape {
    match shape {
        Some(shape) => shape,
        None => Shape::Error,
    }
}

/// The first of some patterns, or an error.
pub open spec fn one(shapes: Seq<Shape>) -> Shape {
    if shapes.len() > 0 {
        shapes[0]
    } else {
        Shape::Error
    }
}

/// A chain so far: what it has come to, and the name that may yet be a select.
pub struct Reading {
    pub current: Option<Shape>,
    pub pending: Option<Seq<char>>,
}

impl Reading {
    /// The pending name is a field's after all.
    pub open spec fn settled(self) -> Reading {
        match self.pending {
            Some(name) => {
                let base = or_error(self.current);
                Reading {
                    current: Some(
                        if name == lower::VALUE_FIELD@ {
                            Shape::Value(Box::new(base))
                        } else {
                            Shape::Field(name, Box::new(base))
                        },
                    ),
                    pending: None,
                }
            },
            None => self,
        }
    }

    /// The chain one child further.
    pub open spec fn step(self, node: CstNode, item: Item) -> Reading {
        match (item, node) {
            (Item::Pattern(shape), _) => Reading { current: Some(shape), ..self },
            (_, CstNode::Token { token: Token::LId, text, .. }) => Reading {
                pending: Some(text@),
                ..self.settled()
            },
            (_, CstNode::Token { token: Token::Question, .. }) => match self.pending {
                Some(name) => Reading {
                    current: Some(Shape::Select(name, Box::new(or_error(self.current)))),
                    pending: None,
                },
                None => self,
            },
            _ => self,
        }
    }
}

/// A chain through its first `k` children.
pub open spec fn read_chain(nodes: Seq<CstNode>, items: Seq<Item>, k: nat) -> Reading
    decreases k,
{
    if k == 0 {
        Reading { current: None, pending: None }
    } else {
        read_chain(nodes, items, (k - 1) as nat).step(nodes[k - 1], items[k - 1])
    }
}

/// An integer literal; what denotes none is an error.
pub open spec fn integer(nodes: Seq<CstNode>, negative: bool) -> Shape {
    match lower::token_of(nodes, Token::Nat) {
        None => Shape::Error,
        Some(text) => match lexer::nat_value(text) {
            Err(_) => Shape::Error,
            Ok(n) => match lexer::signed_value(n, negative) {
                Err(_) => Shape::Error,
                Ok(value) => Shape::Int(value),
            },
        },
    }
}

/// A string literal, or the strings beginning with one.
pub open spec fn string(nodes: Seq<CstNode>, prefix: bool) -> Shape {
    match lower::token_of(nodes, Token::String) {
        None => Shape::Error,
        Some(text) => match lexer::str_value(text) {
            Err(_) => Shape::Error,
            Ok(decoded) => if prefix {
                Shape::Prefix(decoded)
            } else {
                Shape::Str(decoded)
            },
        },
    }
}

/// What a rule means, its children meaning `items`.
pub open spec fn ruled(schema: Schema, rule: Rule, nodes: Seq<CstNode>, items: Seq<Item>) -> Item {
    match rule {
        Rule::Root => match first_query(items) {
            Some((head, body)) => Item::Query(head, body),
            None => Item::Nothing,
        },
        Rule::Query => Item::Query(latest(patterns(items)), last_stmts(items)),
        Rule::StmtList => Item::Stmts(stmts(items)),
        Rule::BindStmt => {
            let sides = patterns(items);
            Item::Stmt(
                if sides.len() >= 2 {
                    Said::Bind(sides[0], sides[1])
                } else if sides.len() == 1 {
                    Said::Bind(sides[0], Shape::Error)
                } else {
                    Said::Implicit(Shape::Error)
                },
            )
        },
        Rule::ImplicitBindStmt | Rule::Stmt => Item::Stmt(Said::Implicit(one(patterns(items)))),
        Rule::NegationStmt => Item::Stmt(Said::Negation(one(patterns(items)))),
        Rule::Pattern | Rule::Branch | Rule::Fact | Rule::ParenPrimary | Rule::Primary =>
            Item::Pattern(one(patterns(items))),
        Rule::Disjunction => Item::Pattern(Shape::Disjunction(patterns(items))),
        Rule::WildcardPrimary => Item::Pattern(Shape::Wildcard),
        Rule::NeverPrimary => Item::Pattern(Shape::Never),
        Rule::VarPrimary => Item::Pattern(
            match lower::token_of(nodes, Token::UId) {
                Some(text) => Shape::Var(text),
                None => Shape::Error,
            },
        ),
        Rule::NatPrimary => Item::Pattern(integer(nodes, false)),
        Rule::IntPrimary => Item::Pattern(integer(nodes, true)),
        Rule::StringPrimary => Item::Pattern(string(nodes, false)),
        Rule::StringPrefixPrimary => Item::Pattern(string(nodes, true)),
        Rule::AnonRecordPrimary => Item::Pattern(
            Shape::Record(
                kept(
                    by_name(
                        match first_fields(items) {
                            Some(entries) => entries,
                            None => Seq::empty(),
                        },
                    ),
                ),
            ),
        ),
        Rule::FieldList => Item::Fields(fields(items)),
        Rule::Field => Item::Field(
            (lower::token_or_empty(nodes, Token::LId), one(patterns(items))),
        ),
        Rule::FactPattern => Item::Pattern(
            match schema.position(lower::token_or_empty(nodes, Token::QId)) {
                Some(at) => Shape::Fact(PredicateId(at as u32), Box::new(one(patterns(items)))),
                None => Shape::Error,
            },
        ),
        Rule::AccessPattern => Item::Pattern(
            or_error(read_chain(nodes, items, nodes.len()).settled().current),
        ),
        Rule::SubqueryPrimary => Item::Pattern(
            Shape::Subquery(Box::new(latest(patterns(items))), last_stmts(items)),
        ),
        Rule::Error => Item::Nothing,
    }
}

/// The last of some patterns, or an error.
pub open spec fn latest(shapes: Seq<Shape>) -> Shape {
    if shapes.len() > 0 {
        shapes.last()
    } else {
        Shape::Error
    }
}

/// What a node of the parse tree means.
pub open spec fn meant(schema: Schema, node: CstNode) -> Item
    decreases node, 1nat, 0nat,
{
    match node {
        CstNode::Token { .. } => Item::Nothing,
        CstNode::Rule { rule, children, .. } => ruled(
            schema,
            rule,
            children@,
            meant_children(schema, node, children@.len()),
        ),
    }
}

/// What the first `k` children of a node mean.
pub open spec fn meant_children(schema: Schema, node: CstNode, k: nat) -> Seq<Item>
    decreases node, 0nat, k,
{
    match node {
        CstNode::Token { .. } => Seq::empty(),
        CstNode::Rule { children, .. } => if k == 0 || k > children@.len() {
            Seq::empty()
        } else {
            meant_children(schema, node, (k - 1) as nat).push(meant(schema, children@[k - 1]))
        },
    }
}

/// The query a whole parse means. A tree that holds none asks for an error, of nothing.
pub open spec fn meant_query(schema: Schema, root: CstNode) -> (Shape, Seq<Said>) {
    match meant(schema, root) {
        Item::Query(head, body) => (head, body),
        _ => (Shape::Error, Seq::empty()),
    }
}

// ---- states that grow -------------------------------------------------------

/// `b` begins with `a`.
pub open spec fn begins<T>(a: Seq<T>, b: Seq<T>) -> bool {
    &&& a.len() <= b.len()
    &&& forall|i: int|
        #![trigger a[i]]
        #![trigger b[i]]
        0 <= i < a.len() ==> a[i] == b[i]
}

/// The same names and perhaps more.
pub open spec fn names_grow(a: Names, b: Names) -> bool {
    a.schema == b.schema && begins(a.local, b.local)
}

/// The same nodes and names and perhaps more.
pub open spec fn grows(a: Lowered, b: Lowered) -> bool {
    begins(a.kinds, b.kinds) && names_grow(a.names, b.names)
}

proof fn lemma_given_twice(st: Lowered, fields: Seq<Field>)
    ensures
        lower::given_twice(st, fields).kinds == st.kinds,
        lower::given_twice(st, fields).names == st.names,
    decreases fields.len(),
{
    if fields.len() > 0 {
        lemma_given_twice(st, fields.drop_last());
    }
}

proof fn lemma_chain_grows(
    st: Lowered,
    nodes: Seq<CstNode>,
    outs: Seq<Made>,
    span: Span,
    k: nat,
)
    ensures
        grows(st, lower::chained(st, nodes, outs, span, k).st),
    decreases k,
{
    if k > 0 {
        lemma_chain_grows(st, nodes, outs, span, (k - 1) as nat);
        let chain = lower::chained(st, nodes, outs, span, (k - 1) as nat);
        assert(grows(chain.st, chain.settled().st));
        assert(grows(chain.st, chain.step(nodes[k - 1], outs[k - 1], span).st));
    }
}

/// A rule takes no node and no name away.
proof fn lemma_rule_grows(
    st: Lowered,
    schema: Schema,
    rule: Rule,
    span: Span,
    nodes: Seq<CstNode>,
    outs: Seq<Made>,
)
    ensures
        grows(st, lower::ruled(st, schema, rule, span, nodes, outs).1),
{
    match rule {
        Rule::AnonRecordPrimary => {
            let written = match lower::first_fields(outs) {
                Some(fields) => fields,
                None => Seq::empty(),
            };
            lemma_given_twice(st, lower::repeated(lower::by_name(written, st.names)));
        },
        Rule::AccessPattern => {
            lemma_chain_grows(st, nodes, outs, span, nodes.len());
            let chain = lower::chained(st, nodes, outs, span, nodes.len());
            assert(grows(chain.st, chain.settled().st));
        },
        _ => {},
    }
}

/// Lowering takes no node and no name away.
proof fn lemma_lowered_grows(st: Lowered, schema: Schema, node: CstNode)
    ensures
        grows(st, lower::lowered(st, schema, node).1),
    decreases node, 1nat, 0nat,
{
    if let CstNode::Rule { rule, span, children } = node {
        lemma_children_grow(st, schema, node, children@.len());
        let (outs, last) = lower::lowered_children(st, schema, node, children@.len());
        lemma_rule_grows(last, schema, rule, span, children@, outs);
    }
}

proof fn lemma_children_grow(st: Lowered, schema: Schema, node: CstNode, k: nat)
    ensures
        grows(st, lower::lowered_children(st, schema, node, k).1),
    decreases node, 0nat, k,
{
    if let CstNode::Rule { children, .. } = node {
        if 0 < k <= children@.len() {
            lemma_children_grow(st, schema, node, (k - 1) as nat);
            let (outs, last) = lower::lowered_children(st, schema, node, (k - 1) as nat);
            lemma_lowered_grows(last, schema, children@[k - 1]);
        }
    }
}

// ---- reading a state --------------------------------------------------------

/// Every name in a node has a text.
pub open spec fn resolved(kind: ExprKind, names: Names) -> bool {
    match kind {
        ExprKind::Var(symbol) => names.text(symbol) is Some,
        ExprKind::Lit(Literal::Str(symbol)) => names.text(symbol) is Some,
        ExprKind::Prefix(symbol) => names.text(symbol) is Some,
        ExprKind::Record(fields) => forall|i: int|
            0 <= i < fields@.len() ==> names.text((#[trigger] fields@[i]).0) is Some,
        ExprKind::Access(FieldRef::Key(name), _) => names.text(name) is Some,
        ExprKind::Select(name, _) => names.text(name) is Some,
        _ => true,
    }
}

/// Every node stands behind its children, and its names have texts.
pub open spec fn sound(st: Lowered) -> bool {
    forall|i: int|
        0 <= i < st.kinds.len() ==> syntax::children_below(#[trigger] st.kinds[i], i as nat)
            && resolved(st.kinds[i], st.names)
}

/// The nodes and the names can be numbered.
pub open spec fn bounded(st: Lowered) -> bool {
    &&& st.kinds.len() <= usize::MAX
    &&& st.names.schema.len() <= MAX_NAMES
    &&& st.names.local.len() <= MAX_NAMES
}

spec fn shape_of(st: Lowered, id: NodeId) -> Shape {
    shape::under(st.kinds, st.names, id, st.kinds.len())
}

spec fn shapes_of(st: Lowered, ids: Seq<NodeId>) -> Seq<Shape> {
    Seq::new(ids.len(), |i: int| shape_of(st, ids[i]))
}

spec fn said_of(st: Lowered, stmt: QueryStmt) -> Said {
    shape::said_at(st.kinds, st.names, stmt, st.kinds.len())
}

spec fn saids_of(st: Lowered, stmts: Seq<QueryStmt>) -> Seq<Said> {
    Seq::new(stmts.len(), |i: int| said_of(st, stmts[i]))
}

spec fn entry_of(st: Lowered, field: Field) -> Entry {
    (lower::name_text(st.names, field.name), shape_of(st, field.value))
}

spec fn entries_of(st: Lowered, fields: Seq<Field>) -> Seq<Entry> {
    Seq::new(fields.len(), |i: int| entry_of(st, fields[i]))
}

/// What a contribution stands for.
spec fn item_of(st: Lowered, made: Made) -> Item {
    match made {
        Made::Query(query) => Item::Query(shape_of(st, query.head), saids_of(st, query.body@)),
        Made::Stmts(stmts) => Item::Stmts(saids_of(st, stmts)),
        Made::Stmt(stmt) => Item::Stmt(said_of(st, stmt)),
        Made::Pattern(id) => Item::Pattern(shape_of(st, id)),
        Made::Fields(fields) => Item::Fields(entries_of(st, fields)),
        Made::Field(field) => Item::Field(entry_of(st, field)),
        Made::Nothing => Item::Nothing,
    }
}

spec fn items_of(st: Lowered, outs: Seq<Made>) -> Seq<Item> {
    Seq::new(outs.len(), |i: int| item_of(st, outs[i]))
}

/// A symbol is the one its text has.
spec fn known(names: Names, symbol: Symbol) -> bool {
    names.text(symbol) is Some && names.symbol(names.text(symbol)->0) == Some(symbol)
}

/// The names of some fields are known.
spec fn all_known(names: Names, fields: Seq<Field>) -> bool {
    forall|i: int| 0 <= i < fields.len() ==> known(names, (#[trigger] fields[i]).name)
}

/// What a contribution names is there.
spec fn there(st: Lowered, made: Made) -> bool {
    &&& made.below(st.kinds.len())
    &&& match made {
        Made::Field(field) => known(st.names, field.name),
        Made::Fields(fields) => all_known(st.names, fields),
        _ => true,
    }
}

spec fn all_there(st: Lowered, outs: Seq<Made>) -> bool {
    forall|i: int| 0 <= i < outs.len() ==> there(st, #[trigger] outs[i])
}

// ---- what is said stays said ------------------------------------------------

proof fn lemma_position_grows(a: Seq<Seq<char>>, b: Seq<Seq<char>>, s: Seq<char>)
    requires
        begins(a, b),
        schema::position_of(a, s) is Some,
    ensures
        schema::position_of(b, s) == schema::position_of(a, s),
    decreases b.len(),
{
    if a.len() == b.len() {
        assert(a =~= b);
    } else {
        assert(begins(a, b.drop_last()));
        lemma_position_grows(a, b.drop_last(), s);
    }
}

proof fn lemma_known_grows(a: Names, b: Names, symbol: Symbol)
    requires
        names_grow(a, b),
        known(a, symbol),
    ensures
        known(b, symbol),
        b.text(symbol) == a.text(symbol),
{
    let s = a.text(symbol)->0;
    assert(b.text(symbol) == a.text(symbol));
    if schema::position_of(a.schema, s) is None {
        lemma_position_grows(a.local, b.local, s);
    }
}

/// A node says in a later state what it said.
proof fn lemma_shape_grows(a: Lowered, b: Lowered, id: NodeId)
    requires
        sound(a),
        grows(a, b),
        id.0 < a.kinds.len(),
    ensures
        shape::shape_at(b.kinds, b.names, id) == shape::shape_at(a.kinds, a.names, id),
    decreases id.0, 2nat,
{
    let n = id.0 as nat;
    let kind = a.kinds[id.0 as int];
    assert(b.kinds[id.0 as int] == kind);
    assert(syntax::children_below(kind, n) && resolved(kind, a.names));
    match kind {
        ExprKind::Record(fields) => {
            let before = shape::shape_at(a.kinds, a.names, id)->Record_0;
            let after = shape::shape_at(b.kinds, b.names, id)->Record_0;
            assert forall|i: int| 0 <= i < fields@.len() implies after[i] == before[i] by {
                assert(a.names.text(fields@[i].0) is Some);
                lemma_under_grows(a, b, fields@[i].1, n);
            }
            assert(after =~= before);
        },
        ExprKind::Access(_, base) => lemma_under_grows(a, b, base, n),
        ExprKind::Select(_, base) => lemma_under_grows(a, b, base, n),
        ExprKind::Fact(_, key) => lemma_under_grows(a, b, key, n),
        ExprKind::Disjunction(branches) => {
            let before = shape::shape_at(a.kinds, a.names, id)->Disjunction_0;
            let after = shape::shape_at(b.kinds, b.names, id)->Disjunction_0;
            assert forall|i: int| 0 <= i < branches@.len() implies after[i] == before[i] by {
                lemma_under_grows(a, b, branches@[i], n);
            }
            assert(after =~= before);
        },
        ExprKind::Subquery(query) => {
            let before = shape::shape_at(a.kinds, a.names, id)->Subquery_1;
            let after = shape::shape_at(b.kinds, b.names, id)->Subquery_1;
            assert forall|i: int| 0 <= i < query.body@.len() implies after[i] == before[i] by {
                lemma_said_grows(a, b, query.body@[i], n);
            }
            assert(after =~= before);
            lemma_under_grows(a, b, query.head, n);
        },
        _ => {},
    }
}

proof fn lemma_under_grows(a: Lowered, b: Lowered, id: NodeId, n: nat)
    requires
        sound(a),
        grows(a, b),
        n <= a.kinds.len(),
    ensures
        shape::under(b.kinds, b.names, id, n) == shape::under(a.kinds, a.names, id, n),
    decreases n, 0nat,
{
    if id.0 < n {
        lemma_shape_grows(a, b, id);
    }
}

proof fn lemma_said_grows(a: Lowered, b: Lowered, stmt: QueryStmt, n: nat)
    requires
        sound(a),
        grows(a, b),
        n <= a.kinds.len(),
    ensures
        shape::said_at(b.kinds, b.names, stmt, n) == shape::said_at(a.kinds, a.names, stmt, n),
    decreases n, 1nat,
{
    match stmt {
        QueryStmt::Implicit(id) => lemma_under_grows(a, b, id, n),
        QueryStmt::Bind(lhs, rhs) => {
            lemma_under_grows(a, b, lhs, n);
            lemma_under_grows(a, b, rhs, n);
        },
        QueryStmt::Negation(id) => lemma_under_grows(a, b, id, n),
    }
}

proof fn lemma_node_shape_grows(a: Lowered, b: Lowered, id: NodeId)
    requires
        sound(a),
        grows(a, b),
        id.0 < a.kinds.len(),
    ensures
        shape_of(b, id) == shape_of(a, id),
{
    lemma_shape_grows(a, b, id);
}

proof fn lemma_stmt_grows(a: Lowered, b: Lowered, stmt: QueryStmt)
    requires
        sound(a),
        grows(a, b),
        syntax::stmt_below(stmt, a.kinds.len()),
    ensures
        said_of(b, stmt) == said_of(a, stmt),
        syntax::stmt_below(stmt, b.kinds.len()),
{
    lemma_said_grows(a, b, stmt, a.kinds.len());
}

proof fn lemma_stmts_grow(a: Lowered, b: Lowered, stmts: Seq<QueryStmt>)
    requires
        sound(a),
        grows(a, b),
        lower::stmts_below(stmts, a.kinds.len()),
    ensures
        saids_of(b, stmts) == saids_of(a, stmts),
        lower::stmts_below(stmts, b.kinds.len()),
{
    assert forall|i: int| 0 <= i < stmts.len() implies said_of(b, #[trigger] stmts[i]) == said_of(
        a,
        stmts[i],
    ) && syntax::stmt_below(stmts[i], b.kinds.len()) by {
        assert(syntax::stmt_below(stmts[i], a.kinds.len()));
        lemma_stmt_grows(a, b, stmts[i]);
    }
    assert(saids_of(b, stmts) =~= saids_of(a, stmts));
}

proof fn lemma_field_grows(a: Lowered, b: Lowered, field: Field)
    requires
        sound(a),
        grows(a, b),
        field.value.0 < a.kinds.len(),
        known(a.names, field.name),
    ensures
        entry_of(b, field) == entry_of(a, field),
        known(b.names, field.name),
{
    lemma_known_grows(a.names, b.names, field.name);
    lemma_node_shape_grows(a, b, field.value);
}

/// A contribution stands in a later state for what it stood for.
proof fn lemma_item_grows(a: Lowered, b: Lowered, made: Made)
    requires
        sound(a),
        grows(a, b),
        there(a, made),
    ensures
        there(b, made),
        item_of(b, made) == item_of(a, made),
{
    match made {
        Made::Query(query) => {
            assert(lower::stmts_below(query.body@, a.kinds.len()));
            lemma_stmts_grow(a, b, query.body@);
            lemma_node_shape_grows(a, b, query.head);
            assert(syntax::query_below(query, b.kinds.len())) by {
                assert(lower::stmts_below(query.body@, b.kinds.len()));
            }
        },
        Made::Stmts(stmts) => lemma_stmts_grow(a, b, stmts),
        Made::Stmt(stmt) => lemma_stmt_grows(a, b, stmt),
        Made::Pattern(id) => lemma_node_shape_grows(a, b, id),
        Made::Fields(fields) => {
            assert forall|i: int| 0 <= i < fields.len() implies entry_of(b, #[trigger] fields[i])
                == entry_of(a, fields[i]) && known(b.names, fields[i].name) by {
                assert(known(a.names, fields[i].name));
                assert(fields[i].value.0 < a.kinds.len());
                lemma_field_grows(a, b, fields[i]);
            }
            assert(entries_of(b, fields) =~= entries_of(a, fields));
        },
        Made::Field(field) => lemma_field_grows(a, b, field),
        Made::Nothing => {},
    }
}

proof fn lemma_items_grow(a: Lowered, b: Lowered, outs: Seq<Made>)
    requires
        sound(a),
        grows(a, b),
        all_there(a, outs),
    ensures
        all_there(b, outs),
        items_of(b, outs) == items_of(a, outs),
{
    assert forall|i: int| 0 <= i < outs.len() implies there(b, #[trigger] outs[i]) && item_of(
        b,
        outs[i],
    ) == item_of(a, outs[i]) by {
        assert(there(a, outs[i]));
        lemma_item_grows(a, b, outs[i]);
    }
    assert(items_of(b, outs) =~= items_of(a, outs));
}

// ---- picking ----------------------------------------------------------------

/// What is picked out of contributions stands for what is picked out of their items.
proof fn lemma_picked(st: Lowered, outs: Seq<Made>)
    requires
        all_there(st, outs),
    ensures
        shapes_of(st, lower::patterns(outs)) == patterns(items_of(st, outs)),
        lower::ids_below(lower::patterns(outs), st.kinds.len()),
        saids_of(st, lower::stmts(outs)) == stmts(items_of(st, outs)),
        lower::stmts_below(lower::stmts(outs), st.kinds.len()),
        saids_of(st, lower::last_stmts(outs)) == last_stmts(items_of(st, outs)),
        lower::stmts_below(lower::last_stmts(outs), st.kinds.len()),
        entries_of(st, lower::fields(outs)) == fields(items_of(st, outs)),
        there(st, Made::Fields(lower::fields(outs))),
        match (lower::first_fields(outs), first_fields(items_of(st, outs))) {
            (Some(list), Some(entries)) => entries_of(st, list) == entries && there(
                st,
                Made::Fields(list),
            ),
            (None, None) => true,
            _ => false,
        },
        match (lower::first_query(outs), first_query(items_of(st, outs))) {
            (Some(query), Some((head, body))) => item_of(st, Made::Query(query)) == Item::Query(
                head,
                body,
            ) && there(st, Made::Query(query)),
            (None, None) => true,
            _ => false,
        },
    decreases outs.len(),
{
    let items = items_of(st, outs);
    if outs.len() == 0 {
        assert(shapes_of(st, lower::patterns(outs)) =~= patterns(items));
        assert(saids_of(st, lower::stmts(outs)) =~= stmts(items));
        assert(saids_of(st, lower::last_stmts(outs)) =~= last_stmts(items));
        assert(entries_of(st, lower::fields(outs)) =~= fields(items));
    } else {
        let before = outs.drop_last();
        assert(all_there(st, before)) by {
            assert forall|i: int| 0 <= i < before.len() implies there(st, #[trigger] before[i]) by {
                assert(there(st, outs[i]));
            }
        }
        lemma_picked(st, before);
        assert(items.drop_last() =~= items_of(st, before));
        assert(items.last() == item_of(st, outs.last()));
        assert(there(st, outs[outs.len() - 1]));
        match outs.last() {
            Made::Pattern(id) => {
                assert(shapes_of(st, lower::patterns(before).push(id)) =~= shapes_of(
                    st,
                    lower::patterns(before),
                ).push(shape_of(st, id)));
            },
            Made::Stmt(stmt) => {
                assert(saids_of(st, lower::stmts(before).push(stmt)) =~= saids_of(
                    st,
                    lower::stmts(before),
                ).push(said_of(st, stmt)));
            },
            Made::Field(field) => {
                assert(entries_of(st, lower::fields(before).push(field)) =~= entries_of(
                    st,
                    lower::fields(before),
                ).push(entry_of(st, field)));
            },
            _ => {},
        }
    }
}

// ---- one step ---------------------------------------------------------------

/// A node more says what its kind says of the nodes before it.
proof fn lemma_node(st: Lowered, kind: ExprKind, span: Span)
    requires
        sound(st),
        syntax::children_below(kind, st.kinds.len()),
        resolved(kind, st.names),
        bounded(st.node(kind, span).1),
    ensures
        ({
            let (id, after) = st.node(kind, span);
            &&& sound(after)
            &&& grows(st, after)
            &&& id.0 == st.kinds.len()
            &&& id.0 < after.kinds.len()
            &&& after.kinds[id.0 as int] == kind
            &&& shape_of(after, id) == shape::shape_at(after.kinds, after.names, id)
        }),
{
    let (id, after) = st.node(kind, span);
    assert forall|i: int| 0 <= i < after.kinds.len() implies syntax::children_below(
        #[trigger] after.kinds[i],
        i as nat,
    ) && resolved(after.kinds[i], after.names) by {
        if i < st.kinds.len() {
            assert(after.kinds[i] == st.kinds[i]);
            assert(syntax::children_below(st.kinds[i], i as nat));
        }
    }
}

/// An interned name has its text.
proof fn lemma_naming(st: Lowered, s: Seq<char>)
    requires
        sound(st),
        bounded(st.naming(s).1),
    ensures
        ({
            let (symbol, after) = st.naming(s);
            &&& sound(after)
            &&& grows(st, after)
            &&& known(after.names, symbol)
            &&& after.names.text(symbol) == Some(s)
        }),
{
    let (symbol, after) = st.naming(s);
    schema::lemma_position_of(st.names.schema, s);
    schema::lemma_position_of(st.names.local, s);
    schema::lemma_position_of(after.names.local, s);
    assert forall|i: int| 0 <= i < after.kinds.len() implies syntax::children_below(
        #[trigger] after.kinds[i],
        i as nat,
    ) && resolved(after.kinds[i], after.names) by {
        lemma_resolved_grows(st.names, after.names, st.kinds[i]);
    }
}

proof fn lemma_resolved_grows(a: Names, b: Names, kind: ExprKind)
    requires
        names_grow(a, b),
        resolved(kind, a),
    ensures
        resolved(kind, b),
{
    if let ExprKind::Record(fields) = kind {
        assert forall|i: int| 0 <= i < fields@.len() implies b.text(
            (#[trigger] fields@[i]).0,
        ) is Some by {
            assert(a.text(fields@[i].0) is Some);
        }
    }
}

/// A node, or an error where there is none.
proof fn lemma_or_hole(st: Lowered, id: Option<NodeId>, span: Span)
    requires
        sound(st),
        id matches Some(id) ==> id.0 < st.kinds.len(),
        bounded(st.or_hole(id, span).1),
    ensures
        ({
            let (found, after) = st.or_hole(id, span);
            &&& sound(after)
            &&& grows(st, after)
            &&& found.0 < after.kinds.len()
            &&& shape_of(after, found) == (match id {
                Some(id) => shape_of(st, id),
                None => Shape::Error,
            })
        }),
{
    if id is None {
        lemma_node(st, ExprKind::Error, span);
    }
}

/// A leaf says what its kind says.
proof fn lemma_leaf(st: Lowered, kind: ExprKind, span: Span)
    requires
        sound(st),
        resolved(kind, st.names),
        kind is Wildcard || kind is Never || kind is Error || kind is Var || kind is Lit
            || kind is Prefix,
        bounded(st.node(kind, span).1),
    ensures
        ({
            let (id, after) = st.node(kind, span);
            &&& sound(after)
            &&& grows(st, after)
            &&& id.0 < after.kinds.len()
            &&& shape_of(after, id) == (match kind {
                ExprKind::Wildcard => Shape::Wildcard,
                ExprKind::Never => Shape::Never,
                ExprKind::Var(symbol) => Shape::Var(st.names.shown(symbol)),
                ExprKind::Lit(Literal::Int(value)) => Shape::Int(value),
                ExprKind::Lit(Literal::Str(symbol)) => Shape::Str(st.names.shown(symbol)),
                ExprKind::Prefix(symbol) => Shape::Prefix(st.names.shown(symbol)),
                _ => Shape::Error,
            })
        }),
{
    lemma_node(st, kind, span);
}

/// A report changes nothing that is said.
proof fn lemma_reporting(st: Lowered, after: Lowered)
    requires
        sound(st),
        after.kinds == st.kinds,
        after.names == st.names,
    ensures
        sound(after),
        grows(st, after),
{
    assert forall|i: int| 0 <= i < after.kinds.len() implies syntax::children_below(
        #[trigger] after.kinds[i],
        i as nat,
    ) && resolved(after.kinds[i], after.names) by {
        assert(syntax::children_below(st.kinds[i], i as nat));
    }
}

// ---- records ----------------------------------------------------------------

proof fn lemma_inserted(st: Lowered, sorted: Seq<Field>, field: Field)
    requires
        there(st, Made::Fields(sorted)),
        there(st, Made::Field(field)),
    ensures
        there(st, Made::Fields(lower::inserted(sorted, field, st.names))),
        entries_of(st, lower::inserted(sorted, field, st.names)) == inserted(
            entries_of(st, sorted),
            entry_of(st, field),
        ),
    decreases sorted.len(),
{
    let entries = entries_of(st, sorted);
    if sorted.len() == 0 || !text::before(
        lower::name_text(st.names, field.name),
        lower::name_text(st.names, sorted.last().name),
    ) {
        assert(entries_of(st, sorted.push(field)) =~= entries.push(entry_of(st, field)));
    } else {
        let shorter = sorted.drop_last();
        lemma_inserted(st, shorter, field);
        assert(entries.drop_last() =~= entries_of(st, shorter));
        let under = lower::inserted(shorter, field, st.names);
        assert(entries_of(st, under.push(sorted.last())) =~= entries_of(st, under).push(
            entry_of(st, sorted.last()),
        ));
        assert(known(st.names, sorted[sorted.len() - 1].name));
        assert(sorted[sorted.len() - 1].value.0 < st.kinds.len());
        assert(there(st, Made::Fields(under.push(sorted.last()))));
    }
}

proof fn lemma_by_name(st: Lowered, fields: Seq<Field>)
    requires
        there(st, Made::Fields(fields)),
    ensures
        there(st, Made::Fields(lower::by_name(fields, st.names))),
        entries_of(st, lower::by_name(fields, st.names)) == by_name(entries_of(st, fields)),
    decreases fields.len(),
{
    let entries = entries_of(st, fields);
    if fields.len() == 0 {
        assert(entries_of(st, lower::by_name(fields, st.names)) =~= by_name(entries));
    } else {
        let shorter = fields.drop_last();
        lemma_by_name(st, shorter);
        assert(entries.drop_last() =~= entries_of(st, shorter));
        assert(known(st.names, fields[fields.len() - 1].name));
        lemma_inserted(st, lower::by_name(shorter, st.names), fields.last());
    }
}

proof fn lemma_kept(st: Lowered, fields: Seq<Field>)
    requires
        there(st, Made::Fields(fields)),
    ensures
        there(st, Made::Fields(lower::kept(fields))),
        entries_of(st, lower::kept(fields)) == kept(entries_of(st, fields)),
    decreases fields.len(),
{
    let entries = entries_of(st, fields);
    if fields.len() == 0 {
        assert(entries_of(st, lower::kept(fields)) =~= kept(entries));
    } else {
        let shorter = fields.drop_last();
        lemma_kept(st, shorter);
        assert(entries.drop_last() =~= entries_of(st, shorter));
        let before = lower::kept(shorter);
        assert(known(st.names, fields[fields.len() - 1].name));
        if before.len() > 0 {
            assert(known(st.names, before[before.len() - 1].name));
            assert(entries_of(st, before).last() == entry_of(st, before.last()));
        }
        assert(entries_of(st, before.push(fields.last())) =~= entries_of(st, before).push(
            entry_of(st, fields.last()),
        ));
    }
}

/// A record says its fields in the order of their names, the first of each.
proof fn lemma_record(st: Lowered, fields: Seq<Field>, span: Span)
    requires
        sound(st),
        there(st, Made::Fields(fields)),
        lower::fits_a_box(lower::members(lower::kept(lower::by_name(fields, st.names)))),
        bounded(lower::record(st, fields, span).1),
    ensures
        ({
            let (id, after) = lower::record(st, fields, span);
            &&& sound(after)
            &&& grows(st, after)
            &&& id.0 < after.kinds.len()
            &&& shape_of(after, id) == Shape::Record(kept(by_name(entries_of(st, fields))))
        }),
{
    let sorted = lower::by_name(fields, st.names);
    lemma_by_name(st, fields);
    lemma_kept(st, sorted);
    let mid = lower::given_twice(st, lower::repeated(sorted));
    lemma_given_twice(st, lower::repeated(sorted));
    lemma_reporting(st, mid);
    let members = lower::members(lower::kept(sorted));
    let kind = ExprKind::Record(crate::boxed::boxed(members));
    assert forall|i: int| 0 <= i < members.len() implies (#[trigger] members[i]).1.0
        < mid.kinds.len() && mid.names.text(members[i].0) is Some by {
        assert(lower::kept(sorted)[i].value.0 < st.kinds.len());
        assert(known(st.names, lower::kept(sorted)[i].name));
    }
    lemma_node(mid, kind, span);
    let (id, after) = mid.node(kind, span);
    let said = shape::shape_at(after.kinds, after.names, id)->Record_0;
    let entries = entries_of(st, lower::kept(sorted));
    assert(said.len() == members.len());
    assert forall|i: int| 0 <= i < members.len() implies said[i] == entries[i] by {
        assert(known(st.names, lower::kept(sorted)[i].name));
        lemma_under_grows(mid, after, members[i].1, mid.kinds.len());
    }
    assert(said =~= entries);
}

// ---- chains -----------------------------------------------------------------

/// A chain under way says what a reading of it does.
spec fn told(chain: Chain, reading: Reading) -> bool {
    &&& sound(chain.st)
    &&& match (chain.current, reading.current) {
        (Some(id), Some(shape)) => id.0 < chain.st.kinds.len() && shape_of(chain.st, id) == shape,
        (None, None) => true,
        _ => false,
    }
    &&& match (chain.pending, reading.pending) {
        (Some((name, _)), Some(text)) => known(chain.st.names, name) && chain.st.names.text(name)
            == Some(text),
        (None, None) => true,
        _ => false,
    }
}

proof fn lemma_settled(chain: Chain, reading: Reading)
    requires
        told(chain, reading),
        bounded(chain.settled().st),
    ensures
        told(chain.settled(), reading.settled()),
        grows(chain.st, chain.settled().st),
{
    if let Some((name, step)) = chain.pending {
        let (base, mid) = chain.st.or_hole(chain.current, step);
        let kind = ExprKind::Access(
            if lower::name_text(mid.names, name) == lower::VALUE_FIELD@ {
                FieldRef::Value
            } else {
                FieldRef::Key(name)
            },
            base,
        );
        let (id, after) = mid.node(kind, step);
        assert(bounded(mid));
        lemma_or_hole(chain.st, chain.current, step);
        lemma_node(mid, kind, step);
        lemma_under_grows(mid, after, base, mid.kinds.len());
        assert(shape::under(after.kinds, after.names, base, id.0 as nat) == shape_of(mid, base));
    }
}

proof fn lemma_selected(chain: Chain, reading: Reading, span: Span)
    requires
        told(chain, reading),
        chain.pending is Some,
        ({
            let (name, step) = chain.pending->0;
            let (base, mid) = chain.st.or_hole(chain.current, step);
            bounded(mid.node(ExprKind::Select(name, base), span).1)
        }),
    ensures
        ({
            let (name, step) = chain.pending->0;
            let (base, mid) = chain.st.or_hole(chain.current, step);
            let (id, after) = mid.node(ExprKind::Select(name, base), span);
            &&& sound(after)
            &&& grows(chain.st, after)
            &&& id.0 < after.kinds.len()
            &&& shape_of(after, id) == Shape::Select(
                reading.pending->0,
                Box::new(or_error(reading.current)),
            )
        }),
{
    let (name, step) = chain.pending->0;
    let (base, mid) = chain.st.or_hole(chain.current, step);
    let kind = ExprKind::Select(name, base);
    let (id, after) = mid.node(kind, span);
    assert(bounded(mid));
    lemma_or_hole(chain.st, chain.current, step);
    lemma_node(mid, kind, span);
    lemma_under_grows(mid, after, base, mid.kinds.len());
    assert(shape::under(after.kinds, after.names, base, id.0 as nat) == shape_of(mid, base));
}

proof fn lemma_step(chain: Chain, reading: Reading, node: CstNode, out: Made, span: Span)
    requires
        told(chain, reading),
        there(chain.st, out),
        bounded(chain.step(node, out, span).st),
    ensures
        told(chain.step(node, out, span), reading.step(node, item_of(chain.st, out))),
{
    if !(out is Pattern) {
        match node {
            CstNode::Token { token: Token::LId, text, span: at } => {
                let settled = chain.settled();
                assert(bounded(settled.st));
                lemma_settled(chain, reading);
                lemma_naming(settled.st, text@);
                let (name, after) = settled.st.naming(text@);
                if let Some(id) = settled.current {
                    lemma_node_shape_grows(settled.st, after, id);
                }
            },
            CstNode::Token { token: Token::Question, span: at, .. } => {
                if chain.pending is Some {
                    lemma_selected(chain, reading, lower::step_covers(span, at));
                }
            },
            _ => {},
        }
    }
}

proof fn lemma_chained(
    st: Lowered,
    nodes: Seq<CstNode>,
    outs: Seq<Made>,
    span: Span,
    k: nat,
)
    requires
        sound(st),
        all_there(st, outs),
        nodes.len() == outs.len(),
        k <= nodes.len(),
        bounded(lower::chained(st, nodes, outs, span, k).st),
    ensures
        told(
            lower::chained(st, nodes, outs, span, k),
            read_chain(nodes, items_of(st, outs), k),
        ),
        grows(st, lower::chained(st, nodes, outs, span, k).st),
    decreases k,
{
    if k > 0 {
        let chain = lower::chained(st, nodes, outs, span, (k - 1) as nat);
        assert(grows(chain.st, chain.settled().st));
        assert(grows(chain.st, chain.step(nodes[k - 1], outs[k - 1], span).st));
        lemma_chained(st, nodes, outs, span, (k - 1) as nat);
        assert(there(st, outs[k - 1]));
        lemma_item_grows(st, chain.st, outs[k - 1]);
        lemma_step(
            chain,
            read_chain(nodes, items_of(st, outs), (k - 1) as nat),
            nodes[k - 1],
            outs[k - 1],
            span,
        );
    }
}

/// A chain's last node says the chain.
proof fn lemma_access_chain(st: Lowered, nodes: Seq<CstNode>, outs: Seq<Made>, span: Span)
    requires
        sound(st),
        all_there(st, outs),
        nodes.len() == outs.len(),
        bounded(lower::access_chain(st, nodes, outs, span).1),
    ensures
        ({
            let (id, after) = lower::access_chain(st, nodes, outs, span);
            &&& sound(after)
            &&& grows(st, after)
            &&& id.0 < after.kinds.len()
            &&& shape_of(after, id) == or_error(
                read_chain(nodes, items_of(st, outs), nodes.len()).settled().current,
            )
        }),
{
    let chain = lower::chained(st, nodes, outs, span, nodes.len());
    let reading = read_chain(nodes, items_of(st, outs), nodes.len());
    let settled = chain.settled();
    assert(grows(settled.st, settled.st.or_hole(settled.current, span).1));
    assert(grows(chain.st, settled.st));
    lemma_chained(st, nodes, outs, span, nodes.len());
    lemma_settled(chain, reading);
    lemma_or_hole(settled.st, settled.current, span);
}

// ---- rules ------------------------------------------------------------------

/// The first pattern, or an error.
proof fn lemma_one(st: Lowered, outs: Seq<Made>, span: Span)
    requires
        sound(st),
        all_there(st, outs),
        bounded(st.or_hole(lower::first(lower::patterns(outs)), span).1),
    ensures
        ({
            let (id, after) = st.or_hole(lower::first(lower::patterns(outs)), span);
            &&& sound(after)
            &&& grows(st, after)
            &&& id.0 < after.kinds.len()
            &&& shape_of(after, id) == one(patterns(items_of(st, outs)))
        }),
{
    let ids = lower::patterns(outs);
    lemma_picked(st, outs);
    if ids.len() > 0 {
        assert(ids[0].0 < st.kinds.len());
        assert(shapes_of(st, ids)[0] == shape_of(st, ids[0]));
    }
    lemma_or_hole(st, lower::first(ids), span);
}

/// A query says its last pattern, of its last statements.
proof fn lemma_query(st: Lowered, outs: Seq<Made>, span: Span)
    requires
        sound(st),
        all_there(st, outs),
        lower::fits_a_box(lower::last_stmts(outs)),
        bounded(lower::query(st, outs, span).1),
    ensures
        ({
            let (query, after) = lower::query(st, outs, span);
            &&& sound(after)
            &&& grows(st, after)
            &&& there(after, Made::Query(query))
            &&& shape_of(after, query.head) == latest(patterns(items_of(st, outs)))
            &&& saids_of(after, query.body@) == last_stmts(items_of(st, outs))
        }),
{
    let ids = lower::patterns(outs);
    let (query, after) = lower::query(st, outs, span);
    lemma_picked(st, outs);
    if ids.len() > 0 {
        assert(ids[ids.len() - 1].0 < st.kinds.len());
        assert(shapes_of(st, ids).last() == shape_of(st, ids.last()));
    }
    lemma_or_hole(st, lower::latest(ids), span);
    lemma_stmts_grow(st, after, lower::last_stmts(outs));
    assert(syntax::query_below(query, after.kinds.len())) by {
        assert(lower::stmts_below(query.body@, after.kinds.len()));
    }
}

/// A subquery says its query.
proof fn lemma_subquery(st: Lowered, outs: Seq<Made>, span: Span)
    requires
        sound(st),
        all_there(st, outs),
        lower::fits_a_box(lower::last_stmts(outs)),
        ({
            let (query, mid) = lower::query(st, outs, span);
            bounded(mid.node(ExprKind::Subquery(query), span).1)
        }),
    ensures
        ({
            let (query, mid) = lower::query(st, outs, span);
            let (id, after) = mid.node(ExprKind::Subquery(query), span);
            &&& sound(after)
            &&& grows(st, after)
            &&& id.0 < after.kinds.len()
            &&& shape_of(after, id) == Shape::Subquery(
                Box::new(latest(patterns(items_of(st, outs)))),
                last_stmts(items_of(st, outs)),
            )
        }),
{
    let (query, mid) = lower::query(st, outs, span);
    let kind = ExprKind::Subquery(query);
    let (id, after) = mid.node(kind, span);
    assert(bounded(mid));
    lemma_query(st, outs, span);
    lemma_node(mid, kind, span);
    let n = mid.kinds.len();
    lemma_under_grows(mid, after, query.head, n);
    let said = shape::shape_at(after.kinds, after.names, id)->Subquery_1;
    let saids = saids_of(mid, query.body@);
    assert forall|i: int| 0 <= i < query.body@.len() implies said[i] == saids[i] by {
        lemma_said_grows(mid, after, query.body@[i], n);
    }
    assert(said =~= saids);
}

/// A disjunction says its branches.
proof fn lemma_disjunction(st: Lowered, outs: Seq<Made>, span: Span)
    requires
        sound(st),
        all_there(st, outs),
        lower::fits_a_box(lower::patterns(outs)),
        bounded(
            st.node(
                ExprKind::Disjunction(crate::boxed::boxed(lower::patterns(outs))),
                span,
            ).1,
        ),
    ensures
        ({
            let (id, after) = st.node(
                ExprKind::Disjunction(crate::boxed::boxed(lower::patterns(outs))),
                span,
            );
            &&& sound(after)
            &&& grows(st, after)
            &&& id.0 < after.kinds.len()
            &&& shape_of(after, id) == Shape::Disjunction(patterns(items_of(st, outs)))
        }),
{
    let ids = lower::patterns(outs);
    let kind = ExprKind::Disjunction(crate::boxed::boxed(ids));
    let (id, after) = st.node(kind, span);
    lemma_picked(st, outs);
    lemma_node(st, kind, span);
    let said = shape::shape_at(after.kinds, after.names, id)->Disjunction_0;
    let shapes = shapes_of(st, ids);
    assert forall|i: int| 0 <= i < ids.len() implies said[i] == shapes[i] by {
        lemma_under_grows(st, after, ids[i], st.kinds.len());
    }
    assert(said =~= shapes);
}

/// A fact pattern says its predicate, of its key.
proof fn lemma_fact(
    st: Lowered,
    schema: Schema,
    nodes: Seq<CstNode>,
    outs: Seq<Made>,
    span: Span,
)
    requires
        sound(st),
        all_there(st, outs),
        bounded(lower::fact(st, schema, nodes, outs, span).1),
    ensures
        ({
            let (id, after) = lower::fact(st, schema, nodes, outs, span);
            &&& sound(after)
            &&& grows(st, after)
            &&& id.0 < after.kinds.len()
            &&& item_of(after, Made::Pattern(id)) == ruled(
                schema,
                Rule::FactPattern,
                nodes,
                items_of(st, outs),
            )
        }),
{
    let name = lower::token_or_empty(nodes, Token::QId);
    let (key, mid) = st.or_hole(lower::first(lower::patterns(outs)), span);
    assert(grows(st, mid));
    let (id, after) = lower::fact(st, schema, nodes, outs, span);
    assert(grows(mid, after));
    assert(bounded(mid));
    lemma_one(st, outs, span);
    match schema.position(name) {
        Some(at) => {
            let kind = ExprKind::Fact(PredicateId(at as u32), key);
            lemma_node(mid, kind, span);
            lemma_under_grows(mid, after, key, mid.kinds.len());
            assert(shape::under(after.kinds, after.names, key, id.0 as nat) == shape_of(mid, key));
        },
        None => {
            let told = mid.reporting(
                crate::diag::Code::RejectUnknownPredicate,
                "`"@ + name + "` is not a predicate in this schema"@,
                span,
            );
            lemma_reporting(mid, told);
            lemma_leaf(told, ExprKind::Error, span);
        },
    }
}

/// A literal says its value.
proof fn lemma_integer(st: Lowered, nodes: Seq<CstNode>, span: Span, negative: bool)
    requires
        sound(st),
        bounded(lower::int_literal(st, nodes, span, negative).1),
    ensures
        ({
            let (id, after) = lower::int_literal(st, nodes, span, negative);
            &&& sound(after)
            &&& grows(st, after)
            &&& id.0 < after.kinds.len()
            &&& shape_of(after, id) == integer(nodes, negative)
        }),
{
    match lower::token_of(nodes, Token::Nat) {
        None => lemma_leaf(st, ExprKind::Error, span),
        Some(text) => match lexer::nat_value(text) {
            Err(error) => {
                let told = st.reporting(error.report_code(), error.wording(), span);
                lemma_reporting(st, told);
                lemma_leaf(told, ExprKind::Error, span);
            },
            Ok(n) => match lexer::signed_value(n, negative) {
                Err(error) => {
                    let told = st.reporting(error.report_code(), error.wording(), span);
                    lemma_reporting(st, told);
                    lemma_leaf(told, ExprKind::Error, span);
                },
                Ok(value) => lemma_leaf(st, ExprKind::Lit(Literal::Int(value)), span),
            },
        },
    }
}

proof fn lemma_string(st: Lowered, nodes: Seq<CstNode>, span: Span, prefix: bool)
    requires
        sound(st),
        bounded(lower::str_literal(st, nodes, span, prefix).1),
    ensures
        ({
            let (id, after) = lower::str_literal(st, nodes, span, prefix);
            &&& sound(after)
            &&& grows(st, after)
            &&& id.0 < after.kinds.len()
            &&& shape_of(after, id) == string(nodes, prefix)
        }),
{
    match lower::token_of(nodes, Token::String) {
        None => lemma_leaf(st, ExprKind::Error, span),
        Some(text) => match lexer::str_value(text) {
            Err(error) => {
                let told = st.reporting(error.report_code(), error.wording(), span);
                lemma_reporting(st, told);
                lemma_leaf(told, ExprKind::Error, span);
            },
            Ok(decoded) => {
                let (symbol, mid) = st.naming(decoded);
                assert(bounded(mid));
                lemma_naming(st, decoded);
                lemma_leaf(
                    mid,
                    if prefix {
                        ExprKind::Prefix(symbol)
                    } else {
                        ExprKind::Lit(Literal::Str(symbol))
                    },
                    span,
                );
            },
        },
    }
}

/// A field says its name, of its value.
proof fn lemma_field(st: Lowered, nodes: Seq<CstNode>, outs: Seq<Made>, span: Span)
    requires
        sound(st),
        all_there(st, outs),
        ({
            let (name, mid) = st.naming(lower::token_or_empty(nodes, Token::LId));
            bounded(mid.or_hole(lower::first(lower::patterns(outs)), span).1)
        }),
    ensures
        ({
            let text = lower::token_or_empty(nodes, Token::LId);
            let (name, mid) = st.naming(text);
            let (value, after) = mid.or_hole(lower::first(lower::patterns(outs)), span);
            let field = Field { name, value, span };
            &&& sound(after)
            &&& grows(st, after)
            &&& there(after, Made::Field(field))
            &&& entry_of(after, field) == (text, one(patterns(items_of(st, outs))))
        }),
{
    let text = lower::token_or_empty(nodes, Token::LId);
    let (name, mid) = st.naming(text);
    let (value, after) = mid.or_hole(lower::first(lower::patterns(outs)), span);
    assert(bounded(mid));
    lemma_naming(st, text);
    lemma_items_grow(st, mid, outs);
    lemma_one(mid, outs, span);
    lemma_known_grows(mid.names, after.names, name);
}

/// A bind says its two sides, or the half there is.
proof fn lemma_bind(st: Lowered, outs: Seq<Made>, span: Span)
    requires
        sound(st),
        all_there(st, outs),
        bounded(lower::bind(st, outs, span).1),
    ensures
        ({
            let (stmt, after) = lower::bind(st, outs, span);
            let sides = patterns(items_of(st, outs));
            &&& sound(after)
            &&& grows(st, after)
            &&& there(after, Made::Stmt(stmt))
            &&& said_of(after, stmt) == (if sides.len() >= 2 {
                Said::Bind(sides[0], sides[1])
            } else if sides.len() == 1 {
                Said::Bind(sides[0], Shape::Error)
            } else {
                Said::Implicit(Shape::Error)
            })
        }),
{
    let ids = lower::patterns(outs);
    let (stmt, after) = lower::bind(st, outs, span);
    lemma_picked(st, outs);
    let shapes = shapes_of(st, ids);
    if ids.len() >= 2 {
        assert(ids[0].0 < st.kinds.len() && ids[1].0 < st.kinds.len());
        assert(shapes[0] == shape_of(st, ids[0]) && shapes[1] == shape_of(st, ids[1]));
    } else {
        lemma_leaf(st, ExprKind::Error, span);
        if ids.len() == 1 {
            assert(ids[0].0 < st.kinds.len());
            assert(shapes[0] == shape_of(st, ids[0]));
            lemma_node_shape_grows(st, after, ids[0]);
        }
    }
}

/// What a rule comes to says what the rule means.
#[verifier::rlimit(40)]
proof fn lemma_rule(
    st: Lowered,
    schema: Schema,
    rule: Rule,
    span: Span,
    nodes: Seq<CstNode>,
    outs: Seq<Made>,
)
    requires
        sound(st),
        all_there(st, outs),
        nodes.len() == outs.len(),
        lower::rule_fits(st.names, rule, outs),
        bounded(lower::ruled(st, schema, rule, span, nodes, outs).1),
    ensures
        ({
            let (made, after) = lower::ruled(st, schema, rule, span, nodes, outs);
            &&& sound(after)
            &&& there(after, made)
            &&& item_of(after, made) == ruled(schema, rule, nodes, items_of(st, outs))
        }),
{
    match rule {
        Rule::Root => lemma_picked(st, outs),
        Rule::Query => lemma_query(st, outs, span),
        Rule::StmtList => lemma_picked(st, outs),
        Rule::BindStmt => lemma_bind(st, outs, span),
        Rule::ImplicitBindStmt | Rule::Stmt | Rule::NegationStmt => lemma_one(st, outs, span),
        Rule::Pattern | Rule::Branch | Rule::Fact | Rule::ParenPrimary | Rule::Primary =>
            lemma_one(st, outs, span),
        Rule::Disjunction => lemma_disjunction(st, outs, span),
        Rule::WildcardPrimary => lemma_leaf(st, ExprKind::Wildcard, span),
        Rule::NeverPrimary => lemma_leaf(st, ExprKind::Never, span),
        Rule::VarPrimary => match lower::token_of(nodes, Token::UId) {
            Some(text) => {
                let (symbol, mid) = st.naming(text);
                assert(bounded(mid));
                lemma_naming(st, text);
                lemma_leaf(mid, ExprKind::Var(symbol), span);
            },
            None => lemma_leaf(st, ExprKind::Error, span),
        },
        Rule::NatPrimary => lemma_integer(st, nodes, span, false),
        Rule::IntPrimary => lemma_integer(st, nodes, span, true),
        Rule::StringPrimary => lemma_string(st, nodes, span, false),
        Rule::StringPrefixPrimary => lemma_string(st, nodes, span, true),
        Rule::AnonRecordPrimary => {
            let written = match lower::first_fields(outs) {
                Some(fields) => fields,
                None => Seq::empty(),
            };
            lemma_picked(st, outs);
            assert(there(st, Made::Fields(written)));
            assert(entries_of(st, Seq::<Field>::empty()) =~= Seq::<Entry>::empty());
            lemma_record(st, written, span);
        },
        Rule::FieldList => lemma_picked(st, outs),
        Rule::Field => lemma_field(st, nodes, outs, span),
        Rule::FactPattern => lemma_fact(st, schema, nodes, outs, span),
        Rule::AccessPattern => lemma_access_chain(st, nodes, outs, span),
        Rule::SubqueryPrimary => lemma_subquery(st, outs, span),
        Rule::Error => {},
    }
}

/// What a node comes to says what the node means.
proof fn lemma_lowered(st: Lowered, schema: Schema, node: CstNode)
    requires
        sound(st),
        lower::fits(st, schema, node),
        bounded(lower::lowered(st, schema, node).1),
    ensures
        ({
            let (made, after) = lower::lowered(st, schema, node);
            &&& sound(after)
            &&& there(after, made)
            &&& item_of(after, made) == meant(schema, node)
        }),
    decreases node, 1nat, 0nat,
{
    if let CstNode::Rule { rule, span, children } = node {
        let (outs, last) = lower::lowered_children(st, schema, node, children@.len());
        lemma_rule_grows(last, schema, rule, span, children@, outs);
        assert(bounded(last));
        lemma_lowered_children(st, schema, node, children@.len());
        lemma_rule(last, schema, rule, span, children@, outs);
    }
}

proof fn lemma_lowered_children(st: Lowered, schema: Schema, node: CstNode, k: nat)
    requires
        sound(st),
        node matches CstNode::Rule { children, .. } && k <= children@.len(),
        lower::fits_under(st, schema, node, k),
        bounded(lower::lowered_children(st, schema, node, k).1),
    ensures
        ({
            let (outs, after) = lower::lowered_children(st, schema, node, k);
            &&& sound(after)
            &&& outs.len() == k
            &&& all_there(after, outs)
            &&& items_of(after, outs) == meant_children(schema, node, k)
        }),
    decreases node, 0nat, k,
{
    let (outs, after) = lower::lowered_children(st, schema, node, k);
    if let CstNode::Rule { children, .. } = node {
        if k == 0 {
            assert(items_of(after, outs) =~= meant_children(schema, node, k));
        } else {
            let (before, mid) = lower::lowered_children(st, schema, node, (k - 1) as nat);
            let (out, last) = lower::lowered(mid, schema, children@[k - 1]);
            lemma_lowered_grows(mid, schema, children@[k - 1]);
            assert(bounded(mid));
            lemma_lowered_children(st, schema, node, (k - 1) as nat);
            lemma_lowered(mid, schema, children@[k - 1]);
            lemma_items_grow(mid, last, before);
            assert(items_of(after, outs) =~= items_of(last, before).push(item_of(last, out)));
            assert forall|i: int| 0 <= i < outs.len() implies there(after, #[trigger] outs[i]) by {
                if i < k - 1 {
                    assert(there(last, before[i]));
                }
            }
        }
    }
}

// ---- laws -------------------------------------------------------------------

/// A parse lowers to a tree that says what the parse means, and nothing else: whatever
/// names were interned before and however the nodes are numbered.
pub proof fn law_a_parse_lowers_to_what_it_means(names: Names, schema: Schema, root: CstNode)
    requires
        lower::query_fits(names, schema, root),
        bounded(lower::lowered_query(names, schema, root).1),
    ensures
        ({
            let (query, st) = lower::lowered_query(names, schema, root);
            let (head, body) = meant_query(schema, root);
            &&& syntax::query_below(query, st.kinds.len())
            &&& shape::under(st.kinds, st.names, query.head, st.kinds.len()) == head
            &&& query.body@.len() == body.len()
            &&& forall|i: int|
                0 <= i < body.len() ==> shape::said_at(
                    st.kinds,
                    st.names,
                    #[trigger] query.body@[i],
                    st.kinds.len(),
                ) == body[i]
        }),
{
    let start = lower::beginning(names);
    let (out, mid) = lower::lowered(start, schema, root);
    let (query, st) = lower::lowered_query(names, schema, root);
    assert(bounded(mid));
    lemma_lowered(start, schema, root);
    if let Made::Query(found) = out {
        assert(query == found);
        let body = saids_of(st, query.body@);
        assert forall|i: int| 0 <= i < body.len() implies shape::said_at(
            st.kinds,
            st.names,
            #[trigger] query.body@[i],
            st.kinds.len(),
        ) == body[i] by {}
    } else {
        lemma_leaf(mid, ExprKind::Error, root.covers());
    }
}

/// Whether lowering a parse made this tree, and left these names.
pub open spec fn lowers_to(
    names: Names,
    schema: Schema,
    root: CstNode,
    ast: Ast,
    after: Names,
) -> bool {
    let (query, st) = lower::lowered_query(names, schema, root);
    &&& ast.root() == query
    &&& ast.tree().kinds() == st.kinds
    &&& after == st.names
}

/// A tree made from a parse says what the parse means.
pub proof fn law_a_lowered_tree_says_what_its_parse_means(
    names: Names,
    schema: Schema,
    root: CstNode,
    ast: Ast,
    after: Names,
)
    requires
        lower::query_fits(names, schema, root),
        bounded(lower::lowered_query(names, schema, root).1),
        lowers_to(names, schema, root, ast, after),
    ensures
        shape::head_of(ast, after) == meant_query(schema, root).0,
        shape::body_of(ast, after) == meant_query(schema, root).1,
{
    law_a_parse_lowers_to_what_it_means(names, schema, root);
    let (query, st) = lower::lowered_query(names, schema, root);
    let body = meant_query(schema, root).1;
    assert forall|i: int| 0 <= i < body.len() implies shape::body_of(ast, after)[i] == body[i] by {
        assert(shape::said_at(st.kinds, st.names, query.body@[i], st.kinds.len()) == body[i]);
    }
    assert(shape::body_of(ast, after) =~= body);
}

/// Reading a tree back gives the tree: a parse that means what a tree says lowers, from
/// whatever names, to a tree of the same canonical form, which prints the same text.
pub proof fn law_a_tree_reads_back(
    ast: Ast,
    names: Names,
    schema: Schema,
    root: CstNode,
    before: Names,
    again: Ast,
    after: Names,
)
    requires
        ast.wf(),
        again.wf(),
        meant_query(schema, root) == (shape::head_of(ast, names), shape::body_of(ast, names)),
        lower::query_fits(before, schema, root),
        bounded(lower::lowered_query(before, schema, root).1),
        lowers_to(before, schema, root, again, after),
    ensures
        print::structure_of(again, after) == print::structure_of(ast, names),
        print::page_of(again, schema, after).text == print::page_of(ast, schema, names).text,
{
    law_a_lowered_tree_says_what_its_parse_means(before, schema, root, again, after);
    shape::law_one_shape_has_one_canonical_form(again, after, ast, names);
    shape::law_one_shape_prints_as_one_text(again, after, ast, names, schema);
}

} // verus!
