//! Canonical forms are told apart: what a tree says can be read off its canonical form.
use vstd::prelude::*;

use super::apart;
use super::{Said, Shape};
use crate::print;
use crate::print::Structure;
use crate::schema::Names;
use crate::shape;
use crate::syntax;
use crate::syntax::{Ast, ExprKind, FieldRef, NodeId, Query, QueryStmt};
use crate::text;

verus! {

/// The form of what a node says.
spec fn form(x: Shape) -> Seq<char>
    decreases x, 1nat, 0nat,
{
    match x {
        Shape::Wildcard => "(wild)"@,
        Shape::Never => "(never)"@,
        Shape::Error => "(error)"@,
        Shape::Var(name) => print::tagged("var"@, name),
        Shape::Int(value) => print::tagged("int"@, text::signed_decimal(value as int)),
        Shape::Str(s) => print::tagged("str"@, print::debug_text(s)),
        Shape::Prefix(s) => print::tagged("prefix"@, print::debug_text(s)),
        Shape::Record(_) => "(record"@ + (fields_form(x, 0) + ")"@),
        Shape::Field(name, base) => "(field "@ + (name + (" "@ + (form(*base) + ")"@))),
        Shape::Value(base) => "(value "@ + (form(*base) + ")"@),
        Shape::Select(name, base) => "(select "@ + (name + (" "@ + (form(*base) + ")"@))),
        Shape::Fact(predicate, key) => "(fact "@ + (text::decimal(predicate.0 as nat) + (" "@ + (
        form(*key) + ")"@))),
        Shape::Disjunction(_) => "(or "@ + (branches_form(x, 0) + ")"@),
        Shape::Subquery(_, _) => "(subquery "@ + (inner_form(x) + ")"@),
    }
}

/// The fields of a record, from the `k`th on.
spec fn fields_form(x: Shape, k: nat) -> Seq<char>
    decreases x, 0nat, x->Record_0.len() - k,
{
    match x {
        Shape::Record(fields) => if k < fields.len() {
            " ("@ + (fields[k as int].0 + (" "@ + (form(fields[k as int].1) + (")"@ + fields_form(
                x,
                k + 1,
            )))))
        } else {
            Seq::empty()
        },
        _ => Seq::empty(),
    }
}

/// The branches of a disjunction, from the `k`th on.
spec fn branches_form(x: Shape, k: nat) -> Seq<char>
    decreases x, 0nat, x->Disjunction_0.len() - k,
{
    match x {
        Shape::Disjunction(branches) => if k < branches.len() {
            between(k) + (form(branches[k as int]) + branches_form(x, k + 1))
        } else {
            Seq::empty()
        },
        _ => Seq::empty(),
    }
}

/// What stands before the `k`th of several.
spec fn between(k: nat) -> Seq<char> {
    if k > 0 {
        " "@
    } else {
        Seq::empty()
    }
}

/// A query's head and statements.
spec fn inner_form(x: Shape) -> Seq<char>
    decreases x, 0nat, x->Subquery_1.len() + 1,
{
    match x {
        Shape::Subquery(head, body) => form(*head) + (" "@ + stmts_form(x, 0)),
        _ => Seq::empty(),
    }
}

/// A query's statements, from the `k`th on.
spec fn stmts_form(x: Shape, k: nat) -> Seq<char>
    decreases x, 0nat, x->Subquery_1.len() - k,
{
    match x {
        Shape::Subquery(_, body) => if k < body.len() {
            between(k) + (said_form(body[k as int]) + stmts_form(x, k + 1))
        } else {
            Seq::empty()
        },
        _ => Seq::empty(),
    }
}

/// The form of what a statement says.
spec fn said_form(said: Said) -> Seq<char>
    decreases said, 1nat, 0nat,
{
    match said {
        Said::Implicit(x) => "(implicit "@ + (form(x) + ")"@),
        Said::Bind(x, y) => "(bind "@ + (form(x) + (" "@ + (form(y) + ")"@))),
        Said::Negation(x) => "(not "@ + (form(x) + ")"@),
    }
}

// ---- canonical forms are these ----------------------------------------------

proof fn lemma_pattern(a: Structure, id: NodeId, out: Seq<char>)
    requires
        a.ast.wf(),
        a.ast.has(id),
    ensures
        a.pattern(out, id) == out + form(shape::shape_at(a.ast.tree().kinds(), a.names, id)),
    decreases id.0, 2nat, 0nat,
{
    let kinds = a.ast.tree().kinds();
    assert(syntax::children_below(kinds[id.0 as int], id.0 as nat));
    let x = shape::shape_at(kinds, a.names, id);
    match a.ast.kind(id) {
        ExprKind::Record(fields) => {
            assert(x->Record_0.len() == fields@.len());
            lemma_fields(a, id, out + "(record"@, fields@.len());
            assert(a.pattern(out, id) =~= out + form(x));
        },
        ExprKind::Access(FieldRef::Key(name), base) => {
            lemma_pattern(a, base, out + "(field "@ + a.names.shown(name) + " "@);
            assert(a.pattern(out, id) =~= out + form(x));
        },
        ExprKind::Access(FieldRef::Value, base) => {
            lemma_pattern(a, base, out + "(value "@);
            assert(a.pattern(out, id) =~= out + form(x));
        },
        ExprKind::Select(alt, base) => {
            lemma_pattern(a, base, out + "(select "@ + a.names.shown(alt) + " "@);
            assert(a.pattern(out, id) =~= out + form(x));
        },
        ExprKind::Fact(predicate, key) => {
            lemma_pattern(a, key, out + "(fact "@ + text::decimal(predicate.0 as nat) + " "@);
            assert(a.pattern(out, id) =~= out + form(x));
        },
        ExprKind::Disjunction(branches) => {
            assert(x->Disjunction_0.len() == branches@.len());
            lemma_branches(a, id, out + "(or "@, branches@.len());
            assert(a.pattern(out, id) =~= out + form(x));
        },
        ExprKind::Subquery(query) => {
            lemma_body(a, query, id.0 as nat, x, out + "(subquery "@);
            assert(a.pattern(out, id) =~= out + form(x));
        },
        _ => {},
    }
}

proof fn lemma_fields(a: Structure, id: NodeId, out: Seq<char>, k: nat)
    requires
        a.ast.wf(),
        a.ast.has(id),
        a.ast.kind(id) is Record,
        k <= a.ast.kind(id)->Record_0@.len(),
    ensures
        ({
            let x = shape::shape_at(a.ast.tree().kinds(), a.names, id);
            a.fields(out, a.ast.kind(id)->Record_0@, id.0 as nat, k) + fields_form(x, k) == out
                + fields_form(x, 0)
        }),
    decreases id.0, 0nat, k,
{
    if k > 0 {
        let kinds = a.ast.tree().kinds();
        assert(syntax::children_below(kinds[id.0 as int], id.0 as nat));
        let fields = a.ast.kind(id)->Record_0@;
        let x = shape::shape_at(kinds, a.names, id);
        let j = (k - 1) as nat;
        lemma_fields(a, id, out, j);
        let so_far = a.fields(out, fields, id.0 as nat, j);
        let (name, inner) = fields[k - 1];
        assert(inner.0 < id.0);
        assert(x->Record_0[k - 1] == (
            a.names.shown(name),
            shape::under(kinds, a.names, inner, id.0 as nat),
        ));
        lemma_pattern(a, inner, so_far + " ("@ + a.names.shown(name) + " "@);
        assert(a.fields(out, fields, id.0 as nat, k) + fields_form(x, k) =~= so_far + fields_form(
            x,
            j,
        ));
    }
}

proof fn lemma_branches(a: Structure, id: NodeId, out: Seq<char>, k: nat)
    requires
        a.ast.wf(),
        a.ast.has(id),
        a.ast.kind(id) is Disjunction,
        k <= a.ast.kind(id)->Disjunction_0@.len(),
    ensures
        ({
            let x = shape::shape_at(a.ast.tree().kinds(), a.names, id);
            a.branches(out, a.ast.kind(id)->Disjunction_0@, id.0 as nat, k) + branches_form(x, k)
                == out + branches_form(x, 0)
        }),
    decreases id.0, 0nat, k,
{
    if k > 0 {
        let kinds = a.ast.tree().kinds();
        assert(syntax::children_below(kinds[id.0 as int], id.0 as nat));
        let branches = a.ast.kind(id)->Disjunction_0@;
        let x = shape::shape_at(kinds, a.names, id);
        let j = (k - 1) as nat;
        lemma_branches(a, id, out, j);
        let so_far = a.branches(out, branches, id.0 as nat, j);
        assert(branches[k - 1].0 < id.0);
        assert(x->Disjunction_0[k - 1] == shape::under(kinds, a.names, branches[k - 1], id.0 as nat));
        lemma_pattern(a, branches[k - 1], if k > 1 {
            so_far + " "@
        } else {
            so_far
        });
        assert(a.branches(out, branches, id.0 as nat, k) + branches_form(x, k) =~= so_far
            + branches_form(x, j));
    }
}

/// A query, as what it says.
spec fn says(a: Structure, query: Query, n: nat, x: Shape) -> bool {
    &&& x is Subquery
    &&& *x->Subquery_0 == shape::shape_at(a.ast.tree().kinds(), a.names, query.head)
    &&& x->Subquery_1.len() == query.body@.len()
    &&& forall|i: int|
        0 <= i < query.body@.len() ==> #[trigger] x->Subquery_1[i] == shape::said_at(
            a.ast.tree().kinds(),
            a.names,
            query.body@[i],
            n,
        )
}

proof fn lemma_body(a: Structure, query: Query, n: nat, x: Shape, out: Seq<char>)
    requires
        a.ast.wf(),
        n <= a.ast.tree().kinds().len(),
        syntax::query_below(query, n),
        says(a, query, n, x),
    ensures
        a.body(out, query, n) == out + inner_form(x),
    decreases n, 1nat, 0nat,
{
    lemma_pattern(a, query.head, out);
    let start = a.pattern(out, query.head) + " "@;
    lemma_stmts(a, query, n, x, start, query.body@.len());
    assert(a.body(out, query, n) =~= out + inner_form(x));
}

proof fn lemma_said(a: Structure, stmt: QueryStmt, n: nat, out: Seq<char>)
    requires
        a.ast.wf(),
        n <= a.ast.tree().kinds().len(),
        syntax::stmt_below(stmt, n),
    ensures
        a.stmt(out, stmt, n) == out + said_form(shape::said_at(a.ast.tree().kinds(), a.names, stmt, n)),
    decreases n, 0nat, 0nat,
{
    let kinds = a.ast.tree().kinds();
    match stmt {
        QueryStmt::Implicit(id) => {
            lemma_pattern(a, id, out + "(implicit "@);
            assert(a.stmt(out, stmt, n) =~= out + said_form(shape::said_at(kinds, a.names, stmt, n)));
        },
        QueryStmt::Bind(lhs, rhs) => {
            lemma_pattern(a, lhs, out + "(bind "@);
            lemma_pattern(a, rhs, a.pattern(out + "(bind "@, lhs) + " "@);
            let (x, y) = (shape::shape_at(kinds, a.names, lhs), shape::shape_at(kinds, a.names, rhs));
            assert(out + "(bind "@ + form(x) + " "@ + form(y) + ")"@ =~= out + ("(bind "@ + (form(x)
                + (" "@ + (form(y) + ")"@)))));
        },
        QueryStmt::Negation(id) => {
            lemma_pattern(a, id, out + "(not "@);
            assert(a.stmt(out, stmt, n) =~= out + said_form(shape::said_at(kinds, a.names, stmt, n)));
        },
    }
}

proof fn lemma_stmts(a: Structure, query: Query, n: nat, x: Shape, out: Seq<char>, k: nat)
    requires
        a.ast.wf(),
        n <= a.ast.tree().kinds().len(),
        syntax::query_below(query, n),
        says(a, query, n, x),
        k <= query.body@.len(),
    ensures
        a.stmts(out, query.body@, n, k) + stmts_form(x, k) == out + stmts_form(x, 0),
    decreases n, 0nat, k,
{
    if k > 0 {
        let j = (k - 1) as nat;
        let body = query.body@;
        lemma_stmts(a, query, n, x, out, j);
        let so_far = a.stmts(out, body, n, j);
        let here = if k > 1 {
            so_far + " "@
        } else {
            so_far
        };
        assert(syntax::stmt_below(body[k - 1], n));
        assert(x->Subquery_1[k - 1] == shape::said_at(a.ast.tree().kinds(), a.names, body[k - 1], n));
        lemma_said(a, body[k - 1], n, here);
        let said = said_form(x->Subquery_1[k - 1]);
        assert(here + said + stmts_form(x, k) =~= so_far + (between(j) + (said + stmts_form(
            x,
            k,
        ))));
    }
}

// ---- they are told apart ----------------------------------------------------

/// A character of a name: no space and no parenthesis.
pub open spec fn plain() -> spec_fn(char) -> bool {
    |c: char| c != ' ' && c != '(' && c != ')'
}

/// Strings as `Debug` shows them are told apart, wherever they stand.
#[verifier::opaque]
pub open spec fn strings_told_apart() -> bool {
    forall|a: Seq<char>, b: Seq<char>, s: Seq<char>, t: Seq<char>|
        #![trigger print::debug_text(a) + s, print::debug_text(b) + t]
        print::debug_text(a) + s == print::debug_text(b) + t ==> a == b && s == t
}

/// Names have no spaces and no parentheses in them, and there are strings only if there may be.
pub open spec fn well_named(x: Shape, strings: bool) -> bool
    decreases x,
{
    match x {
        Shape::Var(name) => apart::all_of(plain(), name),
        Shape::Str(_) => strings,
        Shape::Prefix(_) => strings,
        Shape::Record(fields) => forall|i: int|
            0 <= i < fields.len() ==> apart::all_of(plain(), (#[trigger] fields[i]).0)
                && well_named(fields[i].1, strings),
        Shape::Field(name, base) => apart::all_of(plain(), name) && well_named(*base, strings),
        Shape::Value(base) => well_named(*base, strings),
        Shape::Select(name, base) => apart::all_of(plain(), name) && well_named(*base, strings),
        Shape::Fact(_, key) => well_named(*key, strings),
        Shape::Disjunction(branches) => forall|i: int|
            0 <= i < branches.len() ==> well_named(#[trigger] branches[i], strings),
        Shape::Subquery(head, body) => well_named(*head, strings) && forall|i: int|
            0 <= i < body.len() ==> well_said(#[trigger] body[i], strings),
        _ => true,
    }
}

/// The same of a statement.
pub open spec fn well_said(said: Said, strings: bool) -> bool
    decreases said,
{
    match said {
        Said::Implicit(x) => well_named(x, strings),
        Said::Bind(x, y) => well_named(x, strings) && well_named(y, strings),
        Said::Negation(x) => well_named(x, strings),
    }
}

/// The letters a form begins with, behind the parenthesis.
spec fn lead(x: Shape) -> (char, char) {
    match x {
        Shape::Wildcard => ('w', 'i'),
        Shape::Never => ('n', 'e'),
        Shape::Error => ('e', 'r'),
        Shape::Var(_) => ('v', 'r'),
        Shape::Int(_) => ('i', 'n'),
        Shape::Str(_) => ('s', 't'),
        Shape::Prefix(_) => ('p', 'r'),
        Shape::Record(_) => ('r', 'e'),
        Shape::Field(_, _) => ('f', 'i'),
        Shape::Value(_) => ('v', 'l'),
        Shape::Select(_, _) => ('s', 'e'),
        Shape::Fact(_, _) => ('f', 'a'),
        Shape::Disjunction(_) => ('o', 'r'),
        Shape::Subquery(_, _) => ('s', 'u'),
    }
}

proof fn lemma_lead(x: Shape, s: Seq<char>)
    ensures
        ({
            let a = form(x) + s;
            &&& a.len() > 3
            &&& a[0] == '('
            &&& a[1] == lead(x).0
            &&& a[1] == 'v' ==> a[3] == lead(x).1
            &&& a[1] != 'v' ==> a[2] == lead(x).1
        }),
{
    reveal_strlit("(");
    reveal_strlit(" ");
    reveal_strlit(")");
    reveal_strlit("(wild)");
    reveal_strlit("(never)");
    reveal_strlit("(error)");
    reveal_strlit("var");
    reveal_strlit("int");
    reveal_strlit("str");
    reveal_strlit("prefix");
    reveal_strlit("(record");
    reveal_strlit("(field ");
    reveal_strlit("(value ");
    reveal_strlit("(select ");
    reveal_strlit("(fact ");
    reveal_strlit("(or ");
    reveal_strlit("(subquery ");
}

proof fn lemma_tagged(tag: Seq<char>, a: Seq<char>, b: Seq<char>, s: Seq<char>, t: Seq<char>)
    requires
        print::tagged(tag, a) + s == print::tagged(tag, b) + t,
    ensures
        a + (")"@ + s) == b + (")"@ + t),
{
    let p = "("@ + tag + " "@;
    assert(print::tagged(tag, a) + s =~= p + (a + (")"@ + s)));
    assert(print::tagged(tag, b) + t =~= p + (b + (")"@ + t)));
    apart::lemma_strip(p, a + (")"@ + s), b + (")"@ + t));
}

/// A name, a space, and a form, up to the end of a list.
proof fn lemma_named(
    lead: Seq<char>,
    name: Seq<char>,
    x: Shape,
    s: Seq<char>,
    other: Seq<char>,
    y: Shape,
    t: Seq<char>,
)
    requires
        apart::all_of(plain(), name),
        apart::all_of(plain(), other),
        lead + (name + (" "@ + (form(x) + (")"@ + s)))) == lead + (other + (" "@ + (form(y) + (
        ")"@ + t)))),
    ensures
        name == other,
        form(x) + (")"@ + s) == form(y) + (")"@ + t),
{
    reveal_strlit(" ");
    let (a, b) = (form(x) + (")"@ + s), form(y) + (")"@ + t));
    apart::lemma_strip(lead, name + (" "@ + a), other + (" "@ + b));
    apart::lemma_word(plain(), name, other, " "@ + a, " "@ + b);
    apart::lemma_strip(" "@, a, b);
}

proof fn lemma_strings(a: Seq<char>, b: Seq<char>, s: Seq<char>, t: Seq<char>)
    requires
        strings_told_apart(),
        print::debug_text(a) + s == print::debug_text(b) + t,
    ensures
        a == b,
        s == t,
{
    reveal(strings_told_apart);
}

/// What stands behind a parenthesis that ends something.
proof fn lemma_ended(p: Seq<char>, a: Seq<char>, s: Seq<char>)
    ensures
        (p + (a + ")"@)) + s == p + (a + (")"@ + s)),
{
    assert((p + (a + ")"@)) + s =~= p + (a + (")"@ + s)));
}

proof fn lemma_two_ended(p: Seq<char>, n: Seq<char>, a: Seq<char>, s: Seq<char>)
    ensures
        (p + (n + (" "@ + (a + ")"@)))) + s == p + (n + (" "@ + (a + (")"@ + s)))),
{
    assert((p + (n + (" "@ + (a + ")"@)))) + s =~= p + (n + (" "@ + (a + (")"@ + s)))));
}

/// Forms are told apart, wherever they stand.
#[verifier::rlimit(60)]
proof fn lemma_form(x: Shape, y: Shape, s: Seq<char>, t: Seq<char>, strings: bool)
    requires
        well_named(x, strings),
        well_named(y, strings),
        strings ==> strings_told_apart(),
        form(x) + s == form(y) + t,
    ensures
        x == y,
        s == t,
    decreases x, 1nat, 0nat,
{
    lemma_lead(x, s);
    lemma_lead(y, t);
    reveal_strlit(")");
    reveal_strlit(" ");
    match (x, y) {
        (Shape::Wildcard, Shape::Wildcard) => apart::lemma_strip("(wild)"@, s, t),
        (Shape::Never, Shape::Never) => apart::lemma_strip("(never)"@, s, t),
        (Shape::Error, Shape::Error) => apart::lemma_strip("(error)"@, s, t),
        (Shape::Var(name), Shape::Var(other)) => {
            lemma_tagged("var"@, name, other, s, t);
            apart::lemma_word(plain(), name, other, ")"@ + s, ")"@ + t);
            apart::lemma_strip(")"@, s, t);
        },
        (Shape::Int(value), Shape::Int(other)) => {
            let (a, b) = (text::signed_decimal(value as int), text::signed_decimal(other as int));
            lemma_tagged("int"@, a, b, s, t);
            apart::lemma_integers(value as int, other as int, ")"@ + s, ")"@ + t);
            apart::lemma_strip(")"@, s, t);
        },
        (Shape::Str(a), Shape::Str(b)) => {
            lemma_tagged("str"@, print::debug_text(a), print::debug_text(b), s, t);
            lemma_strings(a, b, ")"@ + s, ")"@ + t);
            apart::lemma_strip(")"@, s, t);
        },
        (Shape::Prefix(a), Shape::Prefix(b)) => {
            lemma_tagged("prefix"@, print::debug_text(a), print::debug_text(b), s, t);
            lemma_strings(a, b, ")"@ + s, ")"@ + t);
            apart::lemma_strip(")"@, s, t);
        },
        (Shape::Record(fields), Shape::Record(others)) => {
            let (a, b) = (fields_form(x, 0), fields_form(y, 0));
            lemma_ended("(record"@, a, s);
            lemma_ended("(record"@, b, t);
            apart::lemma_strip("(record"@, a + (")"@ + s), b + (")"@ + t));
            lemma_fields_form(x, y, 0, ")"@ + s, ")"@ + t, strings);
            assert(fields =~= others);
            apart::lemma_strip(")"@, s, t);
        },
        (Shape::Field(name, base), Shape::Field(other, under)) => {
            lemma_two_ended("(field "@, name, form(*base), s);
            lemma_two_ended("(field "@, other, form(*under), t);
            lemma_named("(field "@, name, *base, s, other, *under, t);
            lemma_form(*base, *under, ")"@ + s, ")"@ + t, strings);
            apart::lemma_strip(")"@, s, t);
        },
        (Shape::Value(base), Shape::Value(under)) => {
            let (a, b) = (form(*base) + (")"@ + s), form(*under) + (")"@ + t));
            lemma_ended("(value "@, form(*base), s);
            lemma_ended("(value "@, form(*under), t);
            apart::lemma_strip("(value "@, a, b);
            lemma_form(*base, *under, ")"@ + s, ")"@ + t, strings);
            apart::lemma_strip(")"@, s, t);
        },
        (Shape::Select(name, base), Shape::Select(other, under)) => {
            lemma_two_ended("(select "@, name, form(*base), s);
            lemma_two_ended("(select "@, other, form(*under), t);
            lemma_named("(select "@, name, *base, s, other, *under, t);
            lemma_form(*base, *under, ")"@ + s, ")"@ + t, strings);
            apart::lemma_strip(")"@, s, t);
        },
        (Shape::Fact(p, key), Shape::Fact(q, other)) => {
            let (a, b) = (form(*key) + (")"@ + s), form(*other) + (")"@ + t));
            let (m, n) = (p.0 as nat, q.0 as nat);
            lemma_two_ended("(fact "@, text::decimal(m), form(*key), s);
            lemma_two_ended("(fact "@, text::decimal(n), form(*other), t);
            apart::lemma_strip(
                "(fact "@,
                text::decimal(m) + (" "@ + a),
                text::decimal(n) + (" "@ + b),
            );
            apart::lemma_decimals(m, n, " "@ + a, " "@ + b);
            apart::lemma_strip(" "@, a, b);
            lemma_form(*key, *other, ")"@ + s, ")"@ + t, strings);
            apart::lemma_strip(")"@, s, t);
        },
        (Shape::Disjunction(branches), Shape::Disjunction(others)) => {
            let (a, b) = (branches_form(x, 0), branches_form(y, 0));
            lemma_ended("(or "@, a, s);
            lemma_ended("(or "@, b, t);
            apart::lemma_strip("(or "@, a + (")"@ + s), b + (")"@ + t));
            lemma_branches_form(x, y, 0, ")"@ + s, ")"@ + t, strings);
            assert(branches =~= others);
            apart::lemma_strip(")"@, s, t);
        },
        (Shape::Subquery(_, _), Shape::Subquery(_, _)) => {
            let (a, b) = (inner_form(x), inner_form(y));
            lemma_ended("(subquery "@, a, s);
            lemma_ended("(subquery "@, b, t);
            apart::lemma_strip("(subquery "@, a + (")"@ + s), b + (")"@ + t));
            lemma_inner_form(x, y, ")"@ + s, ")"@ + t, strings);
            apart::lemma_strip(")"@, s, t);
        },
        _ => {},
    }
}

proof fn lemma_fields_form(
    x: Shape,
    y: Shape,
    k: nat,
    s: Seq<char>,
    t: Seq<char>,
    strings: bool,
)
    requires
        well_named(x, strings),
        well_named(y, strings),
        strings ==> strings_told_apart(),
        x is Record,
        y is Record,
        k <= x->Record_0.len(),
        k <= y->Record_0.len(),
        s.len() > 0 && s[0] == ')',
        t.len() > 0 && t[0] == ')',
        fields_form(x, k) + s == fields_form(y, k) + t,
    ensures
        x->Record_0.len() == y->Record_0.len(),
        forall|i: int| k <= i < x->Record_0.len() ==> x->Record_0[i] == #[trigger] y->Record_0[i],
        s == t,
    decreases x, 0nat, x->Record_0.len() - k,
{
    reveal_strlit(" (");
    let (fields, others) = (x->Record_0, y->Record_0);
    let (a, b) = (fields_form(x, k) + s, fields_form(y, k) + t);
    if k < fields.len() {
        assert(a[0] == ' ');
    } else {
        assert(a =~= s);
    }
    if k < others.len() {
        assert(b[0] == ' ');
    } else {
        assert(b =~= t);
    }
    if k < fields.len() {
        let (name, inner) = fields[k as int];
        let (other, under) = others[k as int];
        let (more, rest) = (fields_form(x, k + 1) + s, fields_form(y, k + 1) + t);
        assert(a =~= " ("@ + (name + (" "@ + (form(inner) + (")"@ + more)))));
        assert(b =~= " ("@ + (other + (" "@ + (form(under) + (")"@ + rest)))));
        lemma_named(" ("@, name, inner, more, other, under, rest);
        lemma_form(inner, under, ")"@ + more, ")"@ + rest, strings);
        apart::lemma_strip(")"@, more, rest);
        lemma_fields_form(x, y, k + 1, s, t, strings);
    }
}

/// What comes next in a list, or the end of it.
proof fn lemma_next(k: nat, a: Seq<char>, s: Seq<char>)
    requires
        a.len() > 0 && a[0] == '(',
    ensures
        (between(k) + a + s).len() > 0,
        (between(k) + a + s)[0] != ')',
{
    reveal_strlit(" ");
}

proof fn lemma_branches_form(
    x: Shape,
    y: Shape,
    k: nat,
    s: Seq<char>,
    t: Seq<char>,
    strings: bool,
)
    requires
        well_named(x, strings),
        well_named(y, strings),
        strings ==> strings_told_apart(),
        x is Disjunction,
        y is Disjunction,
        k <= x->Disjunction_0.len(),
        k <= y->Disjunction_0.len(),
        s.len() > 0 && s[0] == ')',
        t.len() > 0 && t[0] == ')',
        branches_form(x, k) + s == branches_form(y, k) + t,
    ensures
        x->Disjunction_0.len() == y->Disjunction_0.len(),
        forall|i: int|
            k <= i < x->Disjunction_0.len() ==> x->Disjunction_0[i]
                == #[trigger] y->Disjunction_0[i],
        s == t,
    decreases x, 0nat, x->Disjunction_0.len() - k,
{
    let (branches, others) = (x->Disjunction_0, y->Disjunction_0);
    let (a, b) = (branches_form(x, k) + s, branches_form(y, k) + t);
    if k < branches.len() {
        lemma_lead(branches[k as int], Seq::empty());
        assert(form(branches[k as int]) + Seq::<char>::empty() =~= form(branches[k as int]));
        lemma_next(k, form(branches[k as int]), branches_form(x, k + 1) + s);
        assert(a =~= between(k) + form(branches[k as int]) + (branches_form(x, k + 1) + s));
    } else {
        assert(a =~= s);
    }
    if k < others.len() {
        lemma_lead(others[k as int], Seq::empty());
        assert(form(others[k as int]) + Seq::<char>::empty() =~= form(others[k as int]));
        lemma_next(k, form(others[k as int]), branches_form(y, k + 1) + t);
        assert(b =~= between(k) + form(others[k as int]) + (branches_form(y, k + 1) + t));
    } else {
        assert(b =~= t);
    }
    if k < branches.len() {
        let (more, rest) = (branches_form(x, k + 1) + s, branches_form(y, k + 1) + t);
        assert(a =~= between(k) + (form(branches[k as int]) + more));
        assert(b =~= between(k) + (form(others[k as int]) + rest));
        apart::lemma_strip(
            between(k),
            form(branches[k as int]) + more,
            form(others[k as int]) + rest,
        );
        lemma_form(branches[k as int], others[k as int], more, rest, strings);
        lemma_branches_form(x, y, k + 1, s, t, strings);
    }
}

proof fn lemma_inner_form(x: Shape, y: Shape, s: Seq<char>, t: Seq<char>, strings: bool)
    requires
        well_named(x, strings),
        well_named(y, strings),
        strings ==> strings_told_apart(),
        x is Subquery,
        y is Subquery,
        s.len() > 0 && s[0] == ')',
        t.len() > 0 && t[0] == ')',
        inner_form(x) + s == inner_form(y) + t,
    ensures
        x == y,
        s == t,
    decreases x, 0nat, x->Subquery_1.len() + 1,
{
    let (head, other) = (*x->Subquery_0, *y->Subquery_0);
    let (a, b) = (stmts_form(x, 0) + s, stmts_form(y, 0) + t);
    assert(inner_form(x) + s =~= form(head) + (" "@ + a));
    assert(inner_form(y) + t =~= form(other) + (" "@ + b));
    lemma_form(head, other, " "@ + a, " "@ + b, strings);
    apart::lemma_strip(" "@, a, b);
    lemma_stmts_form(x, y, 0, s, t, strings);
    assert(x->Subquery_1 =~= y->Subquery_1);
}

proof fn lemma_said_lead(said: Said, s: Seq<char>)
    ensures
        ({
            let a = said_form(said) + s;
            &&& a.len() > 1
            &&& a[0] == '('
            &&& a[1] == (match said {
                Said::Implicit(_) => 'i',
                Said::Bind(_, _) => 'b',
                Said::Negation(_) => 'n',
            })
        }),
{
    reveal_strlit("(implicit ");
    reveal_strlit("(bind ");
    reveal_strlit("(not ");
}

proof fn lemma_said_form(x: Said, y: Said, s: Seq<char>, t: Seq<char>, strings: bool)
    requires
        well_said(x, strings),
        well_said(y, strings),
        strings ==> strings_told_apart(),
        said_form(x) + s == said_form(y) + t,
    ensures
        x == y,
        s == t,
    decreases x, 1nat, 0nat,
{
    lemma_said_lead(x, s);
    lemma_said_lead(y, t);
    match (x, y) {
        (Said::Implicit(a), Said::Implicit(b)) => {
            lemma_ended("(implicit "@, form(a), s);
            lemma_ended("(implicit "@, form(b), t);
            apart::lemma_strip("(implicit "@, form(a) + (")"@ + s), form(b) + (")"@ + t));
            lemma_form(a, b, ")"@ + s, ")"@ + t, strings);
        },
        (Said::Bind(a, c), Said::Bind(b, d)) => {
            let (more, rest) = (form(c) + (")"@ + s), form(d) + (")"@ + t));
            lemma_two_ended("(bind "@, form(a), form(c), s);
            lemma_two_ended("(bind "@, form(b), form(d), t);
            apart::lemma_strip("(bind "@, form(a) + (" "@ + more), form(b) + (" "@ + rest));
            lemma_form(a, b, " "@ + more, " "@ + rest, strings);
            apart::lemma_strip(" "@, more, rest);
            lemma_form(c, d, ")"@ + s, ")"@ + t, strings);
        },
        (Said::Negation(a), Said::Negation(b)) => {
            lemma_ended("(not "@, form(a), s);
            lemma_ended("(not "@, form(b), t);
            apart::lemma_strip("(not "@, form(a) + (")"@ + s), form(b) + (")"@ + t));
            lemma_form(a, b, ")"@ + s, ")"@ + t, strings);
        },
        _ => {},
    }
    apart::lemma_strip(")"@, s, t);
}

proof fn lemma_stmts_form(
    x: Shape,
    y: Shape,
    k: nat,
    s: Seq<char>,
    t: Seq<char>,
    strings: bool,
)
    requires
        well_named(x, strings),
        well_named(y, strings),
        strings ==> strings_told_apart(),
        x is Subquery,
        y is Subquery,
        k <= x->Subquery_1.len(),
        k <= y->Subquery_1.len(),
        s.len() > 0 && s[0] == ')',
        t.len() > 0 && t[0] == ')',
        stmts_form(x, k) + s == stmts_form(y, k) + t,
    ensures
        x->Subquery_1.len() == y->Subquery_1.len(),
        forall|i: int|
            k <= i < x->Subquery_1.len() ==> x->Subquery_1[i] == #[trigger] y->Subquery_1[i],
        s == t,
    decreases x, 0nat, x->Subquery_1.len() - k,
{
    let (body, others) = (x->Subquery_1, y->Subquery_1);
    let (a, b) = (stmts_form(x, k) + s, stmts_form(y, k) + t);
    let none = Seq::<char>::empty();
    if k < body.len() {
        let here = said_form(body[k as int]);
        lemma_said_lead(body[k as int], none);
        assert(here + none =~= here);
        lemma_next(k, here, stmts_form(x, k + 1) + s);
        assert(a =~= between(k) + here + (stmts_form(x, k + 1) + s));
    } else {
        assert(a =~= s);
    }
    if k < others.len() {
        let here = said_form(others[k as int]);
        lemma_said_lead(others[k as int], none);
        assert(here + none =~= here);
        lemma_next(k, here, stmts_form(y, k + 1) + t);
        assert(b =~= between(k) + here + (stmts_form(y, k + 1) + t));
    } else {
        assert(b =~= t);
    }
    if k < body.len() {
        let (here, there) = (said_form(body[k as int]), said_form(others[k as int]));
        let (more, rest) = (stmts_form(x, k + 1) + s, stmts_form(y, k + 1) + t);
        assert(a =~= between(k) + (here + more));
        assert(b =~= between(k) + (there + rest));
        apart::lemma_strip(between(k), here + more, there + rest);
        lemma_said_form(body[k as int], others[k as int], more, rest, strings);
        lemma_stmts_form(x, y, k + 1, s, t, strings);
    }
}

/// A canonical form has one shape: trees that are written down the same say the same. So no two
/// trees that differ in a node, a name, a literal, a statement or its kind share a form. Names
/// have no spaces and no parentheses in them; and where there are strings, what `Debug` shows
/// of them tells them apart.
pub proof fn law_one_canonical_form_has_one_shape(
    a: Ast,
    names: Names,
    b: Ast,
    others: Names,
    strings: bool,
)
    requires
        a.wf(),
        b.wf(),
        well_named(Shape::Subquery(Box::new(shape::head_of(a, names)), shape::body_of(a, names)), strings),
        well_named(Shape::Subquery(Box::new(shape::head_of(b, others)), shape::body_of(b, others)), strings),
        print::structure_of(a, names) == print::structure_of(b, others),
    ensures
        (strings ==> strings_told_apart()) ==> shape::head_of(a, names) == shape::head_of(b, others) && shape::body_of(
            a,
            names,
        ) == shape::body_of(b, others),
{
    if strings ==> strings_told_apart() {
        let x = Shape::Subquery(Box::new(shape::head_of(a, names)), shape::body_of(a, names));
        let y = Shape::Subquery(Box::new(shape::head_of(b, others)), shape::body_of(b, others));
        let (m, n) = (a.tree().kinds().len(), b.tree().kinds().len());
        lemma_body(Structure { ast: a, names }, a.root(), m, x, "(query "@);
        lemma_body(Structure { ast: b, names: others }, b.root(), n, y, "(query "@);
        reveal_strlit(")");
        assert("(query "@ + inner_form(x) + ")"@ =~= "(query "@ + (inner_form(x) + ")"@));
        assert("(query "@ + inner_form(y) + ")"@ =~= "(query "@ + (inner_form(y) + ")"@));
        apart::lemma_strip("(query "@, inner_form(x) + ")"@, inner_form(y) + ")"@);
        lemma_inner_form(x, y, ")"@, ")"@, strings);
    }
}

} // verus!
