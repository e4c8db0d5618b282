//! What a tree says: its nodes and names, with no node numbers, no spans and no symbols.
//! Two trees of one shape print the same and have the same structure; and a parse that
//! spells a shape out lowers to a tree of that shape.
pub mod apart;
pub mod forms;
pub mod meaning;
pub mod sources;

use vstd::prelude::*;

use crate::print;
use crate::print::{Page, Prec, Script, Structure};
use crate::schema::{Names, PredicateId, Schema};
use crate::syntax;
use crate::syntax::{Ast, ExprKind, FieldRef, Literal, NodeId, Query, QueryStmt};

verus! {

/// What a node says.
pub enum Shape {
    Wildcard,
    Never,
    Error,
    Var(Seq<char>),
    Int(i64),
    Str(Seq<char>),
    Prefix(Seq<char>),
    Record(Seq<(Seq<char>, Shape)>),
    Field(Seq<char>, Box<Shape>),
    Value(Box<Shape>),
    Select(Seq<char>, Box<Shape>),
    Fact(PredicateId, Box<Shape>),
    Disjunction(Seq<Shape>),
    Subquery(Box<Shape>, Seq<Said>),
}

/// What a statement says.
pub enum Said {
    Implicit(Shape),
    Bind(Shape, Shape),
    Negation(Shape),
}

/// What the node at `id` says, of nodes that stand behind their children.
pub open spec fn shape_at(kinds: Seq<ExprKind>, names: Names, id: NodeId) -> Shape
    decreases id.0, 2nat,
{
    match kinds[id.0 as int] {
        ExprKind::Wildcard => Shape::Wildcard,
        ExprKind::Never => Shape::Never,
        ExprKind::Error => Shape::Error,
        ExprKind::Var(symbol) => Shape::Var(names.shown(symbol)),
        ExprKind::Lit(Literal::Int(value)) => Shape::Int(value),
        ExprKind::Lit(Literal::Str(symbol)) => Shape::Str(names.shown(symbol)),
        ExprKind::Prefix(symbol) => Shape::Prefix(names.shown(symbol)),
        ExprKind::Record(fields) => Shape::Record(
            Seq::new(
                fields@.len(),
                |i: int|
                    (
                        names.shown(fields@[i].0),
                        under(kinds, names, fields@[i].1, id.0 as nat),
                    ),
            ),
        ),
        ExprKind::Access(FieldRef::Key(name), base) => Shape::Field(
            names.shown(name),
            Box::new(under(kinds, names, base, id.0 as nat)),
        ),
        ExprKind::Access(FieldRef::Value, base) => Shape::Value(
            Box::new(under(kinds, names, base, id.0 as nat)),
        ),
        ExprKind::Select(name, base) => Shape::Select(
            names.shown(name),
            Box::new(under(kinds, names, base, id.0 as nat)),
        ),
        ExprKind::Fact(predicate, key) => Shape::Fact(
            predicate,
            Box::new(under(kinds, names, key, id.0 as nat)),
        ),
        ExprKind::Disjunction(branches) => Shape::Disjunction(
            Seq::new(branches@.len(), |i: int| under(kinds, names, branches@[i], id.0 as nat)),
        ),
        ExprKind::Subquery(query) => Shape::Subquery(
            Box::new(under(kinds, names, query.head, id.0 as nat)),
            Seq::new(query.body@.len(), |i: int| said_at(kinds, names, query.body@[i], id.0 as nat)),
        ),
    }
}

/// What a child says, which stands before position `n`.
pub open spec fn under(kinds: Seq<ExprKind>, names: Names, id: NodeId, n: nat) -> Shape
    decreases n, 0nat,
{
    if id.0 < n {
        shape_at(kinds, names, id)
    } else {
        Shape::Error
    }
}

/// What a statement says, whose nodes stand before position `n`.
pub open spec fn said_at(kinds: Seq<ExprKind>, names: Names, stmt: QueryStmt, n: nat) -> Said
    decreases n, 1nat,
{
    match stmt {
        QueryStmt::Implicit(id) => Said::Implicit(under(kinds, names, id, n)),
        QueryStmt::Bind(lhs, rhs) => Said::Bind(
            under(kinds, names, lhs, n),
            under(kinds, names, rhs, n),
        ),
        QueryStmt::Negation(id) => Said::Negation(under(kinds, names, id, n)),
    }
}

/// What a query's head says.
pub open spec fn head_of(ast: Ast, names: Names) -> Shape {
    under(ast.tree().kinds(), names, ast.root().head, ast.tree().kinds().len())
}

/// What a query's statements say.
pub open spec fn body_of(ast: Ast, names: Names) -> Seq<Said> {
    Seq::new(
        ast.root().body@.len(),
        |i: int|
            said_at(ast.tree().kinds(), names, ast.root().body@[i], ast.tree().kinds().len()),
    )
}

// ---- structure --------------------------------------------------------------

/// Nodes of one shape have one structure.
proof fn lemma_structure(a: Structure, x: NodeId, b: Structure, y: NodeId, out: Seq<char>)
    requires
        a.ast.wf(),
        b.ast.wf(),
        a.ast.has(x),
        b.ast.has(y),
        shape_at(a.ast.tree().kinds(), a.names, x) == shape_at(b.ast.tree().kinds(), b.names, y),
    ensures
        a.pattern(out, x) == b.pattern(out, y),
    decreases x.0, 2nat, 0nat,
{
    let (m, n) = (a.ast.tree().kinds(), b.ast.tree().kinds());
    assert(syntax::children_below(m[x.0 as int], x.0 as nat));
    assert(syntax::children_below(n[y.0 as int], y.0 as nat));
    let shape = shape_at(m, a.names, x);
    assert(shape == shape_at(n, b.names, y));
    match (a.ast.kind(x), b.ast.kind(y)) {
        (ExprKind::Record(fields), ExprKind::Record(others)) => {
            assert(shape->Record_0.len() == fields@.len());
            assert(shape->Record_0.len() == others@.len());
            lemma_structure_fields(a, x, b, y, out + "(record"@, fields@.len());
        },
        (ExprKind::Access(_, base), ExprKind::Access(_, other)) => {
            lemma_structure(a, base, b, other, out + "(value "@);
            if let ExprKind::Access(FieldRef::Key(name), _) = a.ast.kind(x) {
                lemma_structure(
                    a,
                    base,
                    b,
                    other,
                    out + "(field "@ + a.names.shown(name) + " "@,
                );
            }
        },
        (ExprKind::Select(alt, base), ExprKind::Select(_, other)) => lemma_structure(
            a,
            base,
            b,
            other,
            out + "(select "@ + a.names.shown(alt) + " "@,
        ),
        (ExprKind::Fact(predicate, base), ExprKind::Fact(_, other)) => lemma_structure(
            a,
            base,
            b,
            other,
            out + "(fact "@ + crate::text::decimal(predicate.0 as nat) + " "@,
        ),
        (ExprKind::Disjunction(branches), ExprKind::Disjunction(others)) => {
            assert(shape->Disjunction_0.len() == branches@.len());
            assert(shape->Disjunction_0.len() == others@.len());
            lemma_structure_branches(a, x, b, y, out + "(or "@, branches@.len());
        },
        (ExprKind::Subquery(query), ExprKind::Subquery(other)) => {
            assert(shape->Subquery_1.len() == query.body@.len());
            assert(shape->Subquery_1.len() == other.body@.len());
            assert forall|i: int| 0 <= i < query.body@.len() implies #[trigger] said_at(
                m,
                a.names,
                query.body@[i],
                x.0 as nat,
            ) == said_at(n, b.names, other.body@[i], y.0 as nat) by {
                assert(shape->Subquery_1[i] == said_at(m, a.names, query.body@[i], x.0 as nat));
                assert(shape->Subquery_1[i] == said_at(n, b.names, other.body@[i], y.0 as nat));
            }
            lemma_structure_query(
                a,
                query,
                x.0 as nat,
                b,
                other,
                y.0 as nat,
                out + "(subquery "@,
            );
        },
        _ => {},
    }
}

proof fn lemma_structure_fields(
    a: Structure,
    x: NodeId,
    b: Structure,
    y: NodeId,
    out: Seq<char>,
    k: nat,
)
    requires
        a.ast.wf(),
        b.ast.wf(),
        a.ast.has(x),
        b.ast.has(y),
        shape_at(a.ast.tree().kinds(), a.names, x) == shape_at(b.ast.tree().kinds(), b.names, y),
        a.ast.kind(x) is Record,
        b.ast.kind(y) is Record,
        k <= a.ast.kind(x)->Record_0@.len(),
        k <= b.ast.kind(y)->Record_0@.len(),
    ensures
        a.fields(out, a.ast.kind(x)->Record_0@, x.0 as nat, k) == b.fields(
            out,
            b.ast.kind(y)->Record_0@,
            y.0 as nat,
            k,
        ),
    decreases x.0, 0nat, k,
{
    if k > 0 {
        let (m, n) = (a.ast.tree().kinds(), b.ast.tree().kinds());
        assert(syntax::children_below(m[x.0 as int], x.0 as nat));
        assert(syntax::children_below(n[y.0 as int], y.0 as nat));
        let (fields, others) = (a.ast.kind(x)->Record_0@, b.ast.kind(y)->Record_0@);
        let shape = shape_at(m, a.names, x);
        lemma_structure_fields(a, x, b, y, out, (k - 1) as nat);
        assert(shape->Record_0[k - 1] == (
            a.names.shown(fields[k - 1].0),
            under(m, a.names, fields[k - 1].1, x.0 as nat),
        ));
        assert(shape->Record_0[k - 1] == (
            b.names.shown(others[k - 1].0),
            under(n, b.names, others[k - 1].1, y.0 as nat),
        ));
        let so_far = a.fields(out, fields, x.0 as nat, (k - 1) as nat) + " ("@ + a.names.shown(
            fields[k - 1].0,
        ) + " "@;
        lemma_structure(a, fields[k - 1].1, b, others[k - 1].1, so_far);
    }
}

proof fn lemma_structure_branches(
    a: Structure,
    x: NodeId,
    b: Structure,
    y: NodeId,
    out: Seq<char>,
    k: nat,
)
    requires
        a.ast.wf(),
        b.ast.wf(),
        a.ast.has(x),
        b.ast.has(y),
        shape_at(a.ast.tree().kinds(), a.names, x) == shape_at(b.ast.tree().kinds(), b.names, y),
        a.ast.kind(x) is Disjunction,
        b.ast.kind(y) is Disjunction,
        k <= a.ast.kind(x)->Disjunction_0@.len(),
        k <= b.ast.kind(y)->Disjunction_0@.len(),
    ensures
        a.branches(out, a.ast.kind(x)->Disjunction_0@, x.0 as nat, k) == b.branches(
            out,
            b.ast.kind(y)->Disjunction_0@,
            y.0 as nat,
            k,
        ),
    decreases x.0, 0nat, k,
{
    if k > 0 {
        let (m, n) = (a.ast.tree().kinds(), b.ast.tree().kinds());
        assert(syntax::children_below(m[x.0 as int], x.0 as nat));
        assert(syntax::children_below(n[y.0 as int], y.0 as nat));
        let (branches, others) = (a.ast.kind(x)->Disjunction_0@, b.ast.kind(y)->Disjunction_0@);
        let shape = shape_at(m, a.names, x);
        lemma_structure_branches(a, x, b, y, out, (k - 1) as nat);
        assert(shape->Disjunction_0[k - 1] == under(m, a.names, branches[k - 1], x.0 as nat));
        assert(shape->Disjunction_0[k - 1] == under(n, b.names, others[k - 1], y.0 as nat));
        let so_far = a.branches(out, branches, x.0 as nat, (k - 1) as nat);
        lemma_structure(
            a,
            branches[k - 1],
            b,
            others[k - 1],
            if k > 1 {
                so_far + " "@
            } else {
                so_far
            },
        );
    }
}

/// Queries that say the same have one structure.
proof fn lemma_structure_query(
    a: Structure,
    query: Query,
    i: nat,
    b: Structure,
    other: Query,
    j: nat,
    out: Seq<char>,
)
    requires
        a.ast.wf(),
        b.ast.wf(),
        i <= a.ast.tree().kinds().len(),
        j <= b.ast.tree().kinds().len(),
        syntax::query_below(query, i),
        syntax::query_below(other, j),
        shape_at(a.ast.tree().kinds(), a.names, query.head) == shape_at(
            b.ast.tree().kinds(),
            b.names,
            other.head,
        ),
        query.body@.len() == other.body@.len(),
        forall|s: int|
            0 <= s < query.body@.len() ==> #[trigger] said_at(
                a.ast.tree().kinds(),
                a.names,
                query.body@[s],
                i,
            ) == said_at(b.ast.tree().kinds(), b.names, other.body@[s], j),
    ensures
        a.body(out, query, i) == b.body(out, other, j),
    decreases i, 1nat, 0nat,
{
    lemma_structure(a, query.head, b, other.head, out);
    lemma_structure_stmts(
        a,
        query.body@,
        i,
        b,
        other.body@,
        j,
        a.pattern(out, query.head) + " "@,
        query.body@.len(),
    );
}

proof fn lemma_structure_stmts(
    a: Structure,
    body: Seq<QueryStmt>,
    i: nat,
    b: Structure,
    others: Seq<QueryStmt>,
    j: nat,
    out: Seq<char>,
    k: nat,
)
    requires
        a.ast.wf(),
        b.ast.wf(),
        i <= a.ast.tree().kinds().len(),
        j <= b.ast.tree().kinds().len(),
        forall|s: int| 0 <= s < body.len() ==> syntax::stmt_below(#[trigger] body[s], i),
        forall|s: int| 0 <= s < others.len() ==> syntax::stmt_below(#[trigger] others[s], j),
        body.len() == others.len(),
        k <= body.len(),
        forall|s: int|
            0 <= s < body.len() ==> #[trigger] said_at(
                a.ast.tree().kinds(),
                a.names,
                body[s],
                i,
            ) == said_at(b.ast.tree().kinds(), b.names, others[s], j),
    ensures
        a.stmts(out, body, i, k) == b.stmts(out, others, j, k),
    decreases i, 0nat, k,
{
    if k > 0 {
        lemma_structure_stmts(a, body, i, b, others, j, out, (k - 1) as nat);
        let so_far = a.stmts(out, body, i, (k - 1) as nat);
        let so_far = if k > 1 {
            so_far + " "@
        } else {
            so_far
        };
        assert(syntax::stmt_below(body[k - 1], i));
        assert(syntax::stmt_below(others[k - 1], j));
        assert(said_at(a.ast.tree().kinds(), a.names, body[k - 1], i) == said_at(
            b.ast.tree().kinds(),
            b.names,
            others[k - 1],
            j,
        ));
        match (body[k - 1], others[k - 1]) {
            (QueryStmt::Implicit(id), QueryStmt::Implicit(other)) => lemma_structure(
                a,
                id,
                b,
                other,
                so_far + "(implicit "@,
            ),
            (QueryStmt::Bind(lhs, rhs), QueryStmt::Bind(left, right)) => {
                lemma_structure(a, lhs, b, left, so_far + "(bind "@);
                lemma_structure(a, rhs, b, right, a.pattern(so_far + "(bind "@, lhs) + " "@);
            },
            (QueryStmt::Negation(id), QueryStmt::Negation(other)) => lemma_structure(
                a,
                id,
                b,
                other,
                so_far + "(not "@,
            ),
            _ => {},
        }
        assert(a.stmts(out, body, i, k) == a.stmt(so_far, body[k - 1], i));
        assert(b.stmts(out, others, j, k) == b.stmt(so_far, others[k - 1], j));
    }
}

/// The canonical form is the shape's: trees that say the same, whatever their nodes are
/// numbered and whatever symbols their names have, are written down the same.
pub proof fn law_one_shape_has_one_canonical_form(a: Ast, names: Names, b: Ast, others: Names)
    requires
        a.wf(),
        b.wf(),
        head_of(a, names) == head_of(b, others),
        body_of(a, names) == body_of(b, others),
    ensures
        print::structure_of(a, names) == print::structure_of(b, others),
{
    let (m, n) = (a.tree().kinds(), b.tree().kinds());
    assert(body_of(a, names).len() == a.root().body@.len());
    assert(body_of(b, others).len() == b.root().body@.len());
    assert forall|s: int| 0 <= s < a.root().body@.len() implies #[trigger] said_at(
        m,
        names,
        a.root().body@[s],
        m.len(),
    ) == said_at(n, others, b.root().body@[s], n.len()) by {
        assert(body_of(a, names)[s] == said_at(m, names, a.root().body@[s], m.len()));
        assert(body_of(b, others)[s] == said_at(n, others, b.root().body@[s], n.len()));
    }
    lemma_structure_query(
        Structure { ast: a, names },
        a.root(),
        m.len(),
        Structure { ast: b, names: others },
        b.root(),
        n.len(),
        "(query "@,
    );
}

// ---- source -----------------------------------------------------------------

/// Nodes of one shape bind alike, and have one text where the schema is the same.
proof fn lemma_source(
    a: Script,
    x: NodeId,
    b: Script,
    y: NodeId,
    page: Page,
    other: Page,
    permitted: Prec,
)
    requires
        a.ast.wf(),
        b.ast.wf(),
        a.schema == b.schema,
        a.ast.has(x),
        b.ast.has(y),
        shape_at(a.ast.tree().kinds(), a.names, x) == shape_at(b.ast.tree().kinds(), b.names, y),
        page.text == other.text,
    ensures
        a.pattern(page, x, permitted).text == b.pattern(other, y, permitted).text,
    decreases x.0, 3nat, 0nat,
{
    assert(print::looseness(a.ast.kind(x)) == print::looseness(b.ast.kind(y)));
    lemma_bare(a, x, b, y, page, other);
    lemma_bare(a, x, b, y, page.put("("@), other.put("("@));
}

proof fn lemma_bare(a: Script, x: NodeId, b: Script, y: NodeId, page: Page, other: Page)
    requires
        a.ast.wf(),
        b.ast.wf(),
        a.schema == b.schema,
        a.ast.has(x),
        b.ast.has(y),
        shape_at(a.ast.tree().kinds(), a.names, x) == shape_at(b.ast.tree().kinds(), b.names, y),
        page.text == other.text,
    ensures
        a.bare(page, x).text == b.bare(other, y).text,
    decreases x.0, 2nat, 0nat,
{
    let (m, n) = (a.ast.tree().kinds(), b.ast.tree().kinds());
    assert(syntax::children_below(m[x.0 as int], x.0 as nat));
    assert(syntax::children_below(n[y.0 as int], y.0 as nat));
    let shape = shape_at(m, a.names, x);
    assert(shape == shape_at(n, b.names, y));
    match (a.ast.kind(x), b.ast.kind(y)) {
        (ExprKind::Record(fields), ExprKind::Record(others)) => {
            assert(shape->Record_0.len() == fields@.len());
            assert(shape->Record_0.len() == others@.len());
            lemma_fields(a, x, b, y, page.put("{"@), other.put("{"@), fields@.len());
        },
        (ExprKind::Access(_, base), ExprKind::Access(_, under)) => {
            lemma_source(a, base, b, under, page, other, Prec::Chain);
            assert(a.base(page, base, x) == a.pattern(page, base, Prec::Chain));
            assert(b.base(other, under, y) == b.pattern(other, under, Prec::Chain));
        },
        (ExprKind::Select(_, base), ExprKind::Select(_, under)) => {
            lemma_source(a, base, b, under, page, other, Prec::Chain);
            assert(a.base(page, base, x) == a.pattern(page, base, Prec::Chain));
            assert(b.base(other, under, y) == b.pattern(other, under, Prec::Chain));
        },
        (ExprKind::Fact(predicate, key), ExprKind::Fact(_, under)) => {
            let name = print::predicate_name(a.schema, predicate);
            lemma_source(
                a,
                key,
                b,
                under,
                page.put(name).put(" "@),
                other.put(name).put(" "@),
                Prec::Application,
            );
        },
        (ExprKind::Disjunction(branches), ExprKind::Disjunction(others)) => {
            assert(shape->Disjunction_0.len() == branches@.len());
            assert(shape->Disjunction_0.len() == others@.len());
            lemma_branches(a, x, b, y, page, other, branches@.len());
        },
        (ExprKind::Subquery(query), ExprKind::Subquery(inner)) => {
            assert(shape->Subquery_1.len() == query.body@.len());
            assert(shape->Subquery_1.len() == inner.body@.len());
            assert forall|i: int| 0 <= i < query.body@.len() implies #[trigger] said_at(
                m,
                a.names,
                query.body@[i],
                x.0 as nat,
            ) == said_at(n, b.names, inner.body@[i], y.0 as nat) by {
                assert(shape->Subquery_1[i] == said_at(m, a.names, query.body@[i], x.0 as nat));
                assert(shape->Subquery_1[i] == said_at(n, b.names, inner.body@[i], y.0 as nat));
            }
            lemma_query(
                a,
                query,
                x.0 as nat,
                b,
                inner,
                y.0 as nat,
                page.put("("@),
                other.put("("@),
            );
        },
        _ => {},
    }
}

proof fn lemma_fields(a: Script, x: NodeId, b: Script, y: NodeId, page: Page, other: Page, k: nat)
    requires
        a.ast.wf(),
        b.ast.wf(),
        a.schema == b.schema,
        a.ast.has(x),
        b.ast.has(y),
        shape_at(a.ast.tree().kinds(), a.names, x) == shape_at(b.ast.tree().kinds(), b.names, y),
        a.ast.kind(x) is Record,
        b.ast.kind(y) is Record,
        k <= a.ast.kind(x)->Record_0@.len(),
        k <= b.ast.kind(y)->Record_0@.len(),
        page.text == other.text,
    ensures
        a.fields(page, a.ast.kind(x)->Record_0@, x.0 as nat, k).text == b.fields(
            other,
            b.ast.kind(y)->Record_0@,
            y.0 as nat,
            k,
        ).text,
    decreases x.0, 0nat, k,
{
    if k > 0 {
        let (m, n) = (a.ast.tree().kinds(), b.ast.tree().kinds());
        assert(syntax::children_below(m[x.0 as int], x.0 as nat));
        assert(syntax::children_below(n[y.0 as int], y.0 as nat));
        let (fields, others) = (a.ast.kind(x)->Record_0@, b.ast.kind(y)->Record_0@);
        let shape = shape_at(m, a.names, x);
        lemma_fields(a, x, b, y, page, other, (k - 1) as nat);
        assert(shape->Record_0[k - 1] == (
            a.names.shown(fields[k - 1].0),
            under(m, a.names, fields[k - 1].1, x.0 as nat),
        ));
        assert(shape->Record_0[k - 1] == (
            b.names.shown(others[k - 1].0),
            under(n, b.names, others[k - 1].1, y.0 as nat),
        ));
        let page = a.fields(page, fields, x.0 as nat, (k - 1) as nat);
        let page = (if k > 1 {
            page.put(", "@)
        } else {
            page
        }).put(a.names.shown(fields[k - 1].0)).put(" = "@);
        let other = b.fields(other, others, y.0 as nat, (k - 1) as nat);
        let other = (if k > 1 {
            other.put(", "@)
        } else {
            other
        }).put(b.names.shown(others[k - 1].0)).put(" = "@);
        lemma_source(a, fields[k - 1].1, b, others[k - 1].1, page, other, Prec::Disjunction);
    }
}

proof fn lemma_branches(
    a: Script,
    x: NodeId,
    b: Script,
    y: NodeId,
    page: Page,
    other: Page,
    k: nat,
)
    requires
        a.ast.wf(),
        b.ast.wf(),
        a.schema == b.schema,
        a.ast.has(x),
        b.ast.has(y),
        shape_at(a.ast.tree().kinds(), a.names, x) == shape_at(b.ast.tree().kinds(), b.names, y),
        a.ast.kind(x) is Disjunction,
        b.ast.kind(y) is Disjunction,
        k <= a.ast.kind(x)->Disjunction_0@.len(),
        k <= b.ast.kind(y)->Disjunction_0@.len(),
        page.text == other.text,
    ensures
        a.branches(page, a.ast.kind(x)->Disjunction_0@, x.0 as nat, k).text == b.branches(
            other,
            b.ast.kind(y)->Disjunction_0@,
            y.0 as nat,
            k,
        ).text,
    decreases x.0, 0nat, k,
{
    if k > 0 {
        let (m, n) = (a.ast.tree().kinds(), b.ast.tree().kinds());
        assert(syntax::children_below(m[x.0 as int], x.0 as nat));
        assert(syntax::children_below(n[y.0 as int], y.0 as nat));
        let (branches, others) = (a.ast.kind(x)->Disjunction_0@, b.ast.kind(y)->Disjunction_0@);
        let shape = shape_at(m, a.names, x);
        lemma_branches(a, x, b, y, page, other, (k - 1) as nat);
        assert(shape->Disjunction_0[k - 1] == under(m, a.names, branches[k - 1], x.0 as nat));
        assert(shape->Disjunction_0[k - 1] == under(n, b.names, others[k - 1], y.0 as nat));
        let page = a.branches(page, branches, x.0 as nat, (k - 1) as nat);
        let page = if k > 1 {
            page.put(" | "@)
        } else {
            page
        };
        let other = b.branches(other, others, y.0 as nat, (k - 1) as nat);
        let other = if k > 1 {
            other.put(" | "@)
        } else {
            other
        };
        lemma_source(a, branches[k - 1], b, others[k - 1], page, other, Prec::Application);
    }
}

proof fn lemma_query(
    a: Script,
    query: Query,
    i: nat,
    b: Script,
    inner: Query,
    j: nat,
    page: Page,
    other: Page,
)
    requires
        a.ast.wf(),
        b.ast.wf(),
        a.schema == b.schema,
        i <= a.ast.tree().kinds().len(),
        j <= b.ast.tree().kinds().len(),
        syntax::query_below(query, i),
        syntax::query_below(inner, j),
        shape_at(a.ast.tree().kinds(), a.names, query.head) == shape_at(
            b.ast.tree().kinds(),
            b.names,
            inner.head,
        ),
        query.body@.len() == inner.body@.len(),
        forall|s: int|
            0 <= s < query.body@.len() ==> #[trigger] said_at(
                a.ast.tree().kinds(),
                a.names,
                query.body@[s],
                i,
            ) == said_at(b.ast.tree().kinds(), b.names, inner.body@[s], j),
        page.text == other.text,
    ensures
        a.query(page, query, i).text == b.query(other, inner, j).text,
    decreases i, 1nat, 0nat,
{
    lemma_source(a, query.head, b, inner.head, page, other, Prec::Disjunction);
    lemma_stmts(
        a,
        query.body@,
        i,
        b,
        inner.body@,
        j,
        a.pattern(page, query.head, Prec::Disjunction).put(" where "@),
        b.pattern(other, inner.head, Prec::Disjunction).put(" where "@),
        query.body@.len(),
    );
}

proof fn lemma_stmts(
    a: Script,
    body: Seq<QueryStmt>,
    i: nat,
    b: Script,
    others: Seq<QueryStmt>,
    j: nat,
    page: Page,
    other: Page,
    k: nat,
)
    requires
        a.ast.wf(),
        b.ast.wf(),
        a.schema == b.schema,
        i <= a.ast.tree().kinds().len(),
        j <= b.ast.tree().kinds().len(),
        forall|s: int| 0 <= s < body.len() ==> syntax::stmt_below(#[trigger] body[s], i),
        forall|s: int| 0 <= s < others.len() ==> syntax::stmt_below(#[trigger] others[s], j),
        body.len() == others.len(),
        k <= body.len(),
        forall|s: int|
            0 <= s < body.len() ==> #[trigger] said_at(
                a.ast.tree().kinds(),
                a.names,
                body[s],
                i,
            ) == said_at(b.ast.tree().kinds(), b.names, others[s], j),
        page.text == other.text,
    ensures
        a.stmts(page, body, i, k).text == b.stmts(other, others, j, k).text,
    decreases i, 0nat, k,
{
    if k > 0 {
        lemma_stmts(a, body, i, b, others, j, page, other, (k - 1) as nat);
        let p = a.stmts(page, body, i, (k - 1) as nat);
        let p = if k > 1 {
            p.put("; "@)
        } else {
            p
        };
        let q = b.stmts(other, others, j, (k - 1) as nat);
        let q = if k > 1 {
            q.put("; "@)
        } else {
            q
        };
        assert(syntax::stmt_below(body[k - 1], i));
        assert(syntax::stmt_below(others[k - 1], j));
        assert(said_at(a.ast.tree().kinds(), a.names, body[k - 1], i) == said_at(
            b.ast.tree().kinds(),
            b.names,
            others[k - 1],
            j,
        ));
        match (body[k - 1], others[k - 1]) {
            (QueryStmt::Implicit(id), QueryStmt::Implicit(at)) => lemma_source(
                a,
                id,
                b,
                at,
                p,
                q,
                Prec::Disjunction,
            ),
            (QueryStmt::Bind(lhs, rhs), QueryStmt::Bind(left, right)) => {
                lemma_source(a, lhs, b, left, p, q, Prec::Disjunction);
                lemma_source(
                    a,
                    rhs,
                    b,
                    right,
                    a.pattern(p, lhs, Prec::Disjunction).put(" = "@),
                    b.pattern(q, left, Prec::Disjunction).put(" = "@),
                    Prec::Disjunction,
                );
            },
            (QueryStmt::Negation(id), QueryStmt::Negation(at)) => lemma_source(
                a,
                id,
                b,
                at,
                p.put("!"@),
                q.put("!"@),
                Prec::Disjunction,
            ),
            _ => {},
        }
        assert(a.stmts(page, body, i, k) == a.stmt(p, body[k - 1], i));
        assert(b.stmts(other, others, j, k) == b.stmt(q, others[k - 1], j));
    }
}

/// Printed source is the shape's, under one schema: trees that say the same print the
/// same text, so what a printed tree reads back to prints as it did.
pub proof fn law_one_shape_prints_as_one_text(
    a: Ast,
    names: Names,
    b: Ast,
    others: Names,
    schema: Schema,
)
    requires
        a.wf(),
        b.wf(),
        head_of(a, names) == head_of(b, others),
        body_of(a, names) == body_of(b, others),
    ensures
        print::page_of(a, schema, names).text == print::page_of(b, schema, others).text,
{
    let (m, n) = (a.tree().kinds(), b.tree().kinds());
    assert(body_of(a, names).len() == a.root().body@.len());
    assert(body_of(b, others).len() == b.root().body@.len());
    assert forall|s: int| 0 <= s < a.root().body@.len() implies #[trigger] said_at(
        m,
        names,
        a.root().body@[s],
        m.len(),
    ) == said_at(n, others, b.root().body@[s], n.len()) by {
        assert(body_of(a, names)[s] == said_at(m, names, a.root().body@[s], m.len()));
        assert(body_of(b, others)[s] == said_at(n, others, b.root().body@[s], n.len()));
    }
    lemma_query(
        Script { ast: a, schema, names },
        a.root(),
        m.len(),
        Script { ast: b, schema, names: others },
        b.root(),
        n.len(),
        Page {
            text: Seq::empty(),
            spans: Seq::new(m.len(), |i: int| syntax::NodeSpan { start: 0, end: 0 }),
        },
        Page {
            text: Seq::empty(),
            spans: Seq::new(n.len(), |i: int| syntax::NodeSpan { start: 0, end: 0 }),
        },
    );
}

} // verus!
