//! The syntax tree: a flat store of nodes, each naming its children by position, with
//! every child stored before its parent.
use vstd::prelude::*;

use crate::schema::{PredicateId, Symbol};

verus! {

/// A node of a [`SyntaxTree`]: its position in the store.
#[derive(Debug, Clone, Copy, PartialEq, Eq, Structural)]
pub struct NodeId(pub usize);

impl NodeId {
    pub fn index(self) -> (i: usize)
        ensures
            i == self.0,
    {
        self.0
    }
}

/// The bytes of the source a node was written at.
#[derive(Debug, Clone, Copy, PartialEq, Eq, Structural)]
pub struct NodeSpan {
    pub start: u32,
    pub end: u32,
}

/// An offset as a [`NodeSpan`] keeps it: the greatest one stands for every one past it.
pub open spec fn narrowed(offset: nat) -> u32 {
    if offset <= u32::MAX {
        offset as u32
    } else {
        u32::MAX
    }
}

/// An offset as a [`NodeSpan`] keeps it.
pub fn narrow_offset(offset: usize) -> (narrow: u32)
    ensures
        narrow == narrowed(offset as nat),
{
    if offset <= u32::MAX as usize {
        offset as u32
    } else {
        u32::MAX
    }
}

/// A literal; a string is interned.
#[derive(Debug, Clone, Copy, PartialEq, Eq, Structural)]
pub enum Literal {
    Int(i64),
    Str(Symbol),
}

/// What a field access reads: a key field, or the fact's value side.
#[derive(Debug, Clone, Copy, PartialEq, Eq, Structural)]
pub enum FieldRef {
    Key(Symbol),
    Value,
}

/// One statement of a query's body.
#[derive(Debug, Clone, Copy, PartialEq, Eq, Structural)]
pub enum QueryStmt {
    Implicit(NodeId),
    Bind(NodeId, NodeId),
    Negation(NodeId),
}

/// A query: what it answers, and the statements it ranges over.
#[derive(Debug)]
pub struct Query {
    pub head: NodeId,
    pub body: Box<[QueryStmt]>,
}

/// What a node is.
#[derive(Debug)]
pub enum ExprKind {
    Wildcard,
    Never,
    Error,
    Var(Symbol),
    Lit(Literal),
    /// The strings beginning with this one.
    Prefix(Symbol),
    Record(Box<[(Symbol, NodeId)]>),
    Access(FieldRef, NodeId),
    Select(Symbol, NodeId),
    Fact(PredicateId, NodeId),
    Disjunction(Box<[NodeId]>),
    Subquery(Query),
}

/// Every node a statement names stands before position `n`.
pub open spec fn stmt_below(stmt: QueryStmt, n: nat) -> bool {
    match stmt {
        QueryStmt::Implicit(id) => id.0 < n,
        QueryStmt::Bind(lhs, rhs) => lhs.0 < n && rhs.0 < n,
        QueryStmt::Negation(id) => id.0 < n,
    }
}

/// Every node a query names stands before position `n`.
pub open spec fn query_below(query: Query, n: nat) -> bool {
    &&& query.head.0 < n
    &&& forall|i: int| 0 <= i < query.body@.len() ==> stmt_below(#[trigger] query.body@[i], n)
}

/// Every child of a node stands before position `n`.
pub open spec fn children_below(kind: ExprKind, n: nat) -> bool {
    match kind {
        ExprKind::Record(fields) => forall|i: int|
            0 <= i < fields@.len() ==> (#[trigger] fields@[i]).1.0 < n,
        ExprKind::Access(_, base) => base.0 < n,
        ExprKind::Select(_, base) => base.0 < n,
        ExprKind::Fact(_, key) => key.0 < n,
        ExprKind::Disjunction(branches) => forall|i: int|
            0 <= i < branches@.len() ==> (#[trigger] branches@[i]).0 < n,
        ExprKind::Subquery(query) => query_below(query, n),
        _ => true,
    }
}

/// The node store, one array per column.
#[derive(Debug)]
pub struct SyntaxTree {
    kinds: Vec<ExprKind>,
    spans: Vec<NodeSpan>,
}

impl SyntaxTree {
    /// What the nodes are.
    pub closed spec fn kinds(self) -> Seq<ExprKind> {
        self.kinds@
    }

    /// Where they were written.
    pub closed spec fn spans(self) -> Seq<NodeSpan> {
        self.spans@
    }

    /// Every node has a span, and every child stands before its parent.
    pub open spec fn wf(self) -> bool {
        &&& self.spans().len() == self.kinds().len()
        &&& forall|i: int|
            0 <= i < self.kinds().len() ==> children_below(#[trigger] self.kinds()[i], i as nat)
    }

    /// A store can be indexed.
    pub proof fn lemma_bounded(self)
        ensures
            self.kinds().len() <= usize::MAX,
    {
        assert(self.kinds.len() == self.kinds@.len());
    }

    pub fn new() -> (tree: Self)
        ensures
            tree.wf(),
            tree.kinds() == Seq::<ExprKind>::empty(),
            tree.spans() == Seq::<NodeSpan>::empty(),
    {
        SyntaxTree { kinds: Vec::new(), spans: Vec::new() }
    }

    pub fn len(&self) -> (n: usize)
        ensures
            n == self.kinds().len(),
    {
        self.kinds.len()
    }

    /// Store a node whose children are stored already.
    pub fn push(&mut self, kind: ExprKind, span: NodeSpan) -> (id: NodeId)
        requires
            old(self).wf(),
            children_below(kind, old(self).kinds().len()),
        ensures
            final(self).wf(),
            id.0 == old(self).kinds().len(),
            final(self).kinds() == old(self).kinds().push(kind),
            final(self).spans() == old(self).spans().push(span),
    {
        let id = NodeId(self.kinds.len());
        self.kinds.push(kind);
        self.spans.push(span);
        id
    }

    /// What a node is.
    pub fn kind(&self, id: NodeId) -> (kind: &ExprKind)
        requires
            id.0 < self.kinds().len(),
        ensures
            *kind == self.kinds()[id.0 as int],
    {
        &self.kinds[id.0]
    }

    /// Where a node was written.
    pub fn span(&self, id: NodeId) -> (span: NodeSpan)
        requires
            self.wf(),
            id.0 < self.kinds().len(),
        ensures
            span == self.spans()[id.0 as int],
    {
        self.spans[id.0]
    }
}

/// A query with the nodes it is made of.
#[derive(Debug)]
pub struct Ast {
    query: Query,
    store: SyntaxTree,
}

impl Ast {
    pub closed spec fn root(self) -> Query {
        self.query
    }

    pub closed spec fn tree(self) -> SyntaxTree {
        self.store
    }

    /// What a node is.
    pub open spec fn kind(self, id: NodeId) -> ExprKind {
        self.tree().kinds()[id.0 as int]
    }

    /// Where a node was written.
    pub open spec fn span(self, id: NodeId) -> NodeSpan {
        self.tree().spans()[id.0 as int]
    }

    /// Whether the tree has this node.
    pub open spec fn has(self, id: NodeId) -> bool {
        id.0 < self.tree().kinds().len()
    }

    /// The store is well formed, and holds every node of the query.
    pub open spec fn wf(self) -> bool {
        &&& self.tree().wf()
        &&& query_below(self.root(), self.tree().kinds().len())
    }

    pub fn new(query: Query, store: SyntaxTree) -> (ast: Self)
        requires
            store.wf(),
            query_below(query, store.kinds().len()),
        ensures
            ast.wf(),
            ast.root() == query,
            ast.tree() == store,
    {
        Ast { query, store }
    }

    pub fn query(&self) -> (query: &Query)
        ensures
            *query == self.root(),
    {
        &self.query
    }

    pub fn store(&self) -> (store: &SyntaxTree)
        ensures
            *store == self.tree(),
    {
        &self.store
    }

    /// A node whose value is known without running anything: a literal, or a record
    /// made of such nodes, however deep.
    pub open spec fn constant(self, id: NodeId) -> bool
        decreases id.0,
    {
        match self.kind(id) {
            ExprKind::Lit(_) => true,
            ExprKind::Record(fields) => forall|i: int|
                0 <= i < fields@.len() ==> (#[trigger] fields@[i]).1.0 < id.0 && self.constant(
                    fields@[i].1,
                ),
            _ => false,
        }
    }

    /// See [`Ast::constant`].
    pub fn is_constant(&self, id: NodeId) -> (constant: bool)
        requires
            self.wf(),
            self.has(id),
        ensures
            constant == self.constant(id),
        decreases id.0,
    {
        match self.store.kind(id) {
            ExprKind::Lit(_) => true,
            ExprKind::Record(fields) => {
                let mut i: usize = 0;
                while i < fields.len()
                    invariant
                        self.wf(),
                        self.has(id),
                        self.kind(id) == ExprKind::Record(*fields),
                        i <= fields@.len(),
                        forall|j: int|
                            0 <= j < i ==> (#[trigger] fields@[j]).1.0 < id.0 && self.constant(
                                fields@[j].1,
                            ),
                    decreases fields@.len() - i,
                {
                    proof {
                        assert(children_below(self.tree().kinds()[id.0 as int], id.0 as nat));
                        assert(fields@[i as int].1.0 < id.0);
                    }
                    if !self.is_constant(fields[i].1) {
                        return false;
                    }
                    i += 1;
                }
                true
            },
            _ => false,
        }
    }
}

} // verus!
