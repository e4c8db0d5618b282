//! Printed sources are told apart: what a tree says can be read off the text it prints as.
pub mod parsing;

use vstd::prelude::*;

use super::apart;
use super::{Said, Shape};
use crate::lexer;
use crate::print;
use crate::print::{Page, Prec, Script};
use crate::schema::{Names, PredicateId, Schema};
use crate::shape;
use crate::syntax;
use crate::syntax::{Ast, ExprKind, NodeId, Query, QueryStmt};
use crate::text;

verus! {

// ---- sources of shapes ------------------------------------------------------

/// How loosely what a node says binds.
pub open spec fn loose(x: Shape) -> Prec {
    match x {
        Shape::Disjunction(_) => Prec::Disjunction,
        Shape::Fact(_, _) => Prec::Application,
        Shape::Field(_, _) => Prec::Chain,
        Shape::Value(_) => Prec::Chain,
        Shape::Select(_, _) => Prec::Chain,
        _ => Prec::Primary,
    }
}

/// The source of what a node says, where so much is permitted.
spec fn src(schema: Schema, x: Shape, permitted: Prec) -> Seq<char>
    decreases x, 2nat, 0nat,
{
    if loose(x).rank() > permitted.rank() {
        "("@ + (own(schema, x) + ")"@)
    } else {
        own(schema, x)
    }
}

/// A node's own source.
spec fn own(schema: Schema, x: Shape) -> Seq<char>
    decreases x, 1nat, 0nat,
{
    match x {
        Shape::Wildcard => "_"@,
        Shape::Never => "never"@,
        Shape::Error => "!error"@,
        Shape::Var(name) => name,
        Shape::Int(value) => text::signed_decimal(value as int),
        Shape::Str(s) => print::escaped(s),
        Shape::Prefix(s) => print::escaped(s) + ".."@,
        Shape::Record(_) => "{"@ + (fields_src(schema, x, 0) + "}"@),
        Shape::Field(name, base) => src(schema, *base, Prec::Chain) + ("."@ + name),
        Shape::Value(base) => src(schema, *base, Prec::Chain) + ".value"@,
        Shape::Select(name, base) => src(schema, *base, Prec::Chain) + ("."@ + (name + "?"@)),
        Shape::Fact(predicate, key) => print::predicate_name(schema, predicate) + (" "@ + src(
            schema,
            *key,
            Prec::Application,
        )),
        Shape::Disjunction(_) => branches_src(schema, x, 0),
        Shape::Subquery(_, _) => "("@ + (query_src(schema, x) + ")"@),
    }
}

/// What stands before the `k`th of several.
spec fn between(sign: Seq<char>, k: nat) -> Seq<char> {
    if k > 0 {
        sign
    } else {
        Seq::empty()
    }
}

/// The fields of a record, from the `k`th on.
spec fn fields_src(schema: Schema, x: Shape, k: nat) -> Seq<char>
    decreases x, 0nat, x->Record_0.len() - k,
{
    match x {
        Shape::Record(fields) => if k < fields.len() {
            between(", "@, k) + (fields[k as int].0 + (" = "@ + (src(
                schema,
                fields[k as int].1,
                Prec::Disjunction,
            ) + fields_src(schema, x, k + 1))))
        } else {
            Seq::empty()
        },
        _ => Seq::empty(),
    }
}

/// The branches of a disjunction, from the `k`th on.
spec fn branches_src(schema: Schema, x: Shape, k: nat) -> Seq<char>
    decreases x, 0nat, x->Disjunction_0.len() - k,
{
    match x {
        Shape::Disjunction(branches) => if k < branches.len() {
            between(" | "@, k) + (src(schema, branches[k as int], Prec::Application)
                + branches_src(schema, x, k + 1))
        } else {
            Seq::empty()
        },
        _ => Seq::empty(),
    }
}

/// A query: its head and its statements.
spec fn query_src(schema: Schema, x: Shape) -> Seq<char>
    decreases x, 0nat, x->Subquery_1.len() + 1,
{
    match x {
        Shape::Subquery(head, _) => src(schema, *head, Prec::Disjunction) + (" where "@ + stmts_src(
            schema,
            x,
            0,
        )),
        _ => Seq::empty(),
    }
}

/// A query's statements, from the `k`th on.
spec fn stmts_src(schema: Schema, x: Shape, k: nat) -> Seq<char>
    decreases x, 0nat, x->Subquery_1.len() - k,
{
    match x {
        Shape::Subquery(_, body) => if k < body.len() {
            between("; "@, k) + (said_src(schema, body[k as int]) + stmts_src(schema, x, k + 1))
        } else {
            Seq::empty()
        },
        _ => Seq::empty(),
    }
}

/// The source of what a statement says.
spec fn said_src(schema: Schema, said: Said) -> Seq<char>
    decreases said, 1nat, 0nat,
{
    match said {
        Said::Implicit(x) => src(schema, x, Prec::Disjunction),
        Said::Bind(x, y) => src(schema, x, Prec::Disjunction) + (" = "@ + src(
            schema,
            y,
            Prec::Disjunction,
        )),
        Said::Negation(x) => "!"@ + src(schema, x, Prec::Disjunction),
    }
}

// ---- printed sources are these ----------------------------------------------

proof fn lemma_pattern(a: Script, id: NodeId, page: Page, permitted: Prec)
    requires
        a.ast.wf(),
        a.ast.has(id),
    ensures
        a.pattern(page, id, permitted).text == page.text + src(
            a.schema,
            shape::shape_at(a.ast.tree().kinds(), a.names, id),
            permitted,
        ),
    decreases id.0, 3nat, 0nat,
{
    let x = shape::shape_at(a.ast.tree().kinds(), a.names, id);
    assert(print::looseness(a.ast.kind(id)) == loose(x));
    lemma_bare(a, id, page);
    lemma_bare(a, id, page.put("("@));
    assert(page.text + "("@ + own(a.schema, x) + ")"@ =~= page.text + ("("@ + (own(a.schema, x)
        + ")"@)));
}

proof fn lemma_bare(a: Script, id: NodeId, page: Page)
    requires
        a.ast.wf(),
        a.ast.has(id),
    ensures
        a.bare(page, id).text == page.text + own(
            a.schema,
            shape::shape_at(a.ast.tree().kinds(), a.names, id),
        ),
    decreases id.0, 2nat, 0nat,
{
    let kinds = a.ast.tree().kinds();
    assert(syntax::children_below(kinds[id.0 as int], id.0 as nat));
    let x = shape::shape_at(kinds, a.names, id);
    match a.ast.kind(id) {
        ExprKind::Record(fields) => {
            assert(x->Record_0.len() == fields@.len());
            lemma_fields(a, id, page.put("{"@), fields@.len());
            assert(a.bare(page, id).text =~= page.text + own(a.schema, x));
        },
        ExprKind::Prefix(_) => {
            assert(a.bare(page, id).text =~= page.text + own(a.schema, x));
        },
        ExprKind::Access(_, base) => {
            lemma_pattern(a, base, page, Prec::Chain);
            assert(a.base(page, base, id) == a.pattern(page, base, Prec::Chain));
            assert(a.bare(page, id).text =~= page.text + own(a.schema, x));
        },
        ExprKind::Select(_, base) => {
            lemma_pattern(a, base, page, Prec::Chain);
            assert(a.base(page, base, id) == a.pattern(page, base, Prec::Chain));
            assert(a.bare(page, id).text =~= page.text + own(a.schema, x));
        },
        ExprKind::Fact(predicate, key) => {
            lemma_pattern(
                a,
                key,
                page.put(print::predicate_name(a.schema, predicate)).put(" "@),
                Prec::Application,
            );
            assert(a.bare(page, id).text =~= page.text + own(a.schema, x));
        },
        ExprKind::Disjunction(branches) => {
            assert(x->Disjunction_0.len() == branches@.len());
            lemma_branches(a, id, page, branches@.len());
            assert(a.bare(page, id).text =~= page.text + own(a.schema, x));
        },
        ExprKind::Subquery(query) => {
            lemma_query(a, query, id.0 as nat, x, page.put("("@));
            assert(a.bare(page, id).text =~= page.text + own(a.schema, x));
        },
        _ => {},
    }
}

/// A node's own text is the same wherever it is printed.
pub proof fn lemma_alone(a: Script, id: NodeId, page: Page, blank: Page)
    requires
        a.ast.wf(),
        a.ast.has(id),
        blank.text.len() == 0,
    ensures
        a.bare(page, id).text == page.text + a.bare(blank, id).text,
{
    lemma_bare(a, id, page);
    lemma_bare(a, id, blank);
    let x = shape::shape_at(a.ast.tree().kinds(), a.names, id);
    assert(blank.text + own(a.schema, x) =~= own(a.schema, x));
}

proof fn lemma_fields(a: Script, id: NodeId, page: Page, k: nat)
    requires
        a.ast.wf(),
        a.ast.has(id),
        a.ast.kind(id) is Record,
        k <= a.ast.kind(id)->Record_0@.len(),
    ensures
        ({
            let x = shape::shape_at(a.ast.tree().kinds(), a.names, id);
            a.fields(page, a.ast.kind(id)->Record_0@, id.0 as nat, k).text + fields_src(
                a.schema,
                x,
                k,
            ) == page.text + fields_src(a.schema, x, 0)
        }),
    decreases id.0, 0nat, k,
{
    if k > 0 {
        let kinds = a.ast.tree().kinds();
        assert(syntax::children_below(kinds[id.0 as int], id.0 as nat));
        let fields = a.ast.kind(id)->Record_0@;
        let x = shape::shape_at(kinds, a.names, id);
        let j = (k - 1) as nat;
        lemma_fields(a, id, page, j);
        let so_far = a.fields(page, fields, id.0 as nat, j);
        let (name, inner) = fields[k - 1];
        assert(inner.0 < id.0);
        assert(x->Record_0[k - 1] == (
            a.names.shown(name),
            shape::under(kinds, a.names, inner, id.0 as nat),
        ));
        let here = (if k > 1 {
            so_far.put(", "@)
        } else {
            so_far
        }).put(a.names.shown(name)).put(" = "@);
        lemma_pattern(a, inner, here, Prec::Disjunction);
        assert(a.fields(page, fields, id.0 as nat, k).text + fields_src(a.schema, x, k)
            =~= so_far.text + fields_src(a.schema, x, j));
    }
}

proof fn lemma_branches(a: Script, id: NodeId, page: Page, k: nat)
    requires
        a.ast.wf(),
        a.ast.has(id),
        a.ast.kind(id) is Disjunction,
        k <= a.ast.kind(id)->Disjunction_0@.len(),
    ensures
        ({
            let x = shape::shape_at(a.ast.tree().kinds(), a.names, id);
            a.branches(page, a.ast.kind(id)->Disjunction_0@, id.0 as nat, k).text + branches_src(
                a.schema,
                x,
                k,
            ) == page.text + branches_src(a.schema, x, 0)
        }),
    decreases id.0, 0nat, k,
{
    if k > 0 {
        let kinds = a.ast.tree().kinds();
        assert(syntax::children_below(kinds[id.0 as int], id.0 as nat));
        let branches = a.ast.kind(id)->Disjunction_0@;
        let x = shape::shape_at(kinds, a.names, id);
        let j = (k - 1) as nat;
        lemma_branches(a, id, page, j);
        let so_far = a.branches(page, branches, id.0 as nat, j);
        assert(branches[k - 1].0 < id.0);
        assert(x->Disjunction_0[k - 1] == shape::under(kinds, a.names, branches[k - 1], id.0 as nat));
        let here = if k > 1 {
            so_far.put(" | "@)
        } else {
            so_far
        };
        lemma_pattern(a, branches[k - 1], here, Prec::Application);
        assert(a.branches(page, branches, id.0 as nat, k).text + branches_src(a.schema, x, k)
            =~= so_far.text + branches_src(a.schema, x, j));
    }
}

/// A query, as what it says.
spec fn says(a: Script, query: Query, n: nat, x: Shape) -> bool {
    &&& x is Subquery
    &&& *x->Subquery_0 == shape::shape_at(a.ast.tree().kinds(), a.names, query.head)
    &&& x->Subquery_1.len() == query.body@.len()
    &&& forall|i: int|
        0 <= i < query.body@.len() ==> #[trigger] x->Subquery_1[i] == shape::said_at(
            a.ast.tree().kinds(),
            a.names,
            query.body@[i],
            n,
        )
}

proof fn lemma_query(a: Script, query: Query, n: nat, x: Shape, page: Page)
    requires
        a.ast.wf(),
        n <= a.ast.tree().kinds().len(),
        syntax::query_below(query, n),
        says(a, query, n, x),
    ensures
        a.query(page, query, n).text == page.text + query_src(a.schema, x),
    decreases n, 1nat, 0nat,
{
    lemma_pattern(a, query.head, page, Prec::Disjunction);
    let start = a.pattern(page, query.head, Prec::Disjunction).put(" where "@);
    lemma_stmts(a, query, n, x, start, query.body@.len());
    assert(a.query(page, query, n).text =~= page.text + query_src(a.schema, x));
}

proof fn lemma_said(a: Script, stmt: QueryStmt, n: nat, page: Page)
    requires
        a.ast.wf(),
        n <= a.ast.tree().kinds().len(),
        syntax::stmt_below(stmt, n),
    ensures
        a.stmt(page, stmt, n).text == page.text + said_src(
            a.schema,
            shape::said_at(a.ast.tree().kinds(), a.names, stmt, n),
        ),
    decreases n, 0nat, 0nat,
{
    let said = shape::said_at(a.ast.tree().kinds(), a.names, stmt, n);
    match stmt {
        QueryStmt::Implicit(id) => lemma_pattern(a, id, page, Prec::Disjunction),
        QueryStmt::Bind(lhs, rhs) => {
            lemma_pattern(a, lhs, page, Prec::Disjunction);
            let here = a.pattern(page, lhs, Prec::Disjunction).put(" = "@);
            lemma_pattern(a, rhs, here, Prec::Disjunction);
            assert(a.stmt(page, stmt, n).text =~= page.text + said_src(a.schema, said));
        },
        QueryStmt::Negation(id) => {
            lemma_pattern(a, id, page.put("!"@), Prec::Disjunction);
            assert(a.stmt(page, stmt, n).text =~= page.text + said_src(a.schema, said));
        },
    }
}

proof fn lemma_stmts(a: Script, query: Query, n: nat, x: Shape, page: Page, k: nat)
    requires
        a.ast.wf(),
        n <= a.ast.tree().kinds().len(),
        syntax::query_below(query, n),
        says(a, query, n, x),
        k <= query.body@.len(),
    ensures
        a.stmts(page, query.body@, n, k).text + stmts_src(a.schema, x, k) == page.text + stmts_src(
            a.schema,
            x,
            0,
        ),
    decreases n, 0nat, k,
{
    if k > 0 {
        let j = (k - 1) as nat;
        let body = query.body@;
        lemma_stmts(a, query, n, x, page, j);
        let so_far = a.stmts(page, body, n, j);
        let here = if k > 1 {
            so_far.put("; "@)
        } else {
            so_far
        };
        assert(syntax::stmt_below(body[k - 1], n));
        assert(x->Subquery_1[k - 1] == shape::said_at(a.ast.tree().kinds(), a.names, body[k - 1], n));
        lemma_said(a, body[k - 1], n, here);
        let said = said_src(a.schema, x->Subquery_1[k - 1]);
        let rest = stmts_src(a.schema, x, k);
        assert(here.text + said + rest =~= so_far.text + (between("; "@, j) + (said + rest)));
    }
}

// ---- what can be read -------------------------------------------------------

/// A character of a name: none of those that stand between names.
pub open spec fn of_a_name() -> spec_fn(char) -> bool {
    |c: char|
        c != ' ' && c != '.' && c != ',' && c != ';' && c != '=' && c != '|' && c != '!' && c
            != '?' && c != '(' && c != ')' && c != '{' && c != '}' && c != '"' && c != '-'
}

/// A character of a predicate's name, which has dots in it too.
pub open spec fn of_a_predicate() -> spec_fn(char) -> bool {
    |c: char| c == '.' || of_a_name()(c)
}

/// A name that a variable can have: it begins as no field, no number and no wildcard does.
pub open spec fn is_variable(name: Seq<char>) -> bool {
    &&& name.len() > 0
    &&& apart::all_of(of_a_name(), name)
    &&& name[0] != '_'
    &&& !('0' <= name[0] <= '9')
    &&& !('a' <= name[0] <= 'z')
}

/// A name that a field can have.
pub open spec fn is_field(name: Seq<char>) -> bool {
    name.len() > 0 && apart::all_of(of_a_name(), name)
}

/// A name that a predicate can have: it begins with a small letter, and not as `never` does.
pub open spec fn is_predicate(name: Seq<char>) -> bool {
    &&& name.len() > 0
    &&& apart::all_of(of_a_predicate(), name)
    &&& 'a' <= name[0] <= 'z'
    &&& !(name.len() >= 5 && name.take(5) == "never"@ && (name.len() == 5 || name[5] == '.'))
}

/// A schema whose predicates have names, each its own.
pub open spec fn names_predicates_apart(schema: Schema) -> bool {
    &&& forall|p: PredicateId| is_predicate(#[trigger] print::predicate_name(schema, p))
    &&& forall|p: PredicateId, q: PredicateId|
        #[trigger] print::predicate_name(schema, p) == #[trigger] print::predicate_name(schema, q) ==> p == q
}

/// What source can say: no errors, names that can be read as what they are, a disjunction of
/// at least two branches, and no key field read by the name of the value side.
pub open spec fn legible(x: Shape) -> bool
    decreases x,
{
    match x {
        Shape::Error => false,
        Shape::Var(name) => is_variable(name),
        Shape::Record(fields) => forall|i: int|
            0 <= i < fields.len() ==> is_field((#[trigger] fields[i]).0) && legible(fields[i].1),
        Shape::Field(name, base) => is_field(name) && name != "value"@ && legible(*base),
        Shape::Value(base) => legible(*base),
        Shape::Select(name, base) => is_field(name) && legible(*base),
        Shape::Fact(_, key) => legible(*key),
        Shape::Disjunction(branches) => branches.len() > 1 && forall|i: int|
            0 <= i < branches.len() ==> legible(#[trigger] branches[i]),
        Shape::Subquery(head, body) => legible(*head) && forall|i: int|
            0 <= i < body.len() ==> legibly_said(#[trigger] body[i]),
        _ => true,
    }
}

/// The same of a statement.
pub open spec fn legibly_said(said: Said) -> bool
    decreases said,
{
    match said {
        Said::Implicit(x) => legible(x),
        Said::Bind(x, y) => legible(x) && legible(y),
        Said::Negation(x) => legible(x),
    }
}

// ---- chains -----------------------------------------------------------------

/// One step of a chain.
enum Link {
    Field(Seq<char>),
    Value,
    Select(Seq<char>),
}

spec fn is_chain(x: Shape) -> bool {
    x is Field || x is Value || x is Select
}

/// What a chain begins with.
spec fn root(x: Shape) -> Shape
    decreases x,
{
    match x {
        Shape::Field(_, base) => root(*base),
        Shape::Value(base) => root(*base),
        Shape::Select(_, base) => root(*base),
        _ => x,
    }
}

/// Its steps.
spec fn links(x: Shape) -> Seq<Link>
    decreases x,
{
    match x {
        Shape::Field(name, base) => links(*base).push(Link::Field(name)),
        Shape::Value(base) => links(*base).push(Link::Value),
        Shape::Select(name, base) => links(*base).push(Link::Select(name)),
        _ => Seq::empty(),
    }
}

spec fn link_name(link: Link) -> Seq<char> {
    match link {
        Link::Field(name) => name,
        Link::Value => "value"@,
        Link::Select(name) => name,
    }
}

spec fn link_mark(link: Link) -> Seq<char> {
    match link {
        Link::Select(_) => "?"@,
        _ => Seq::empty(),
    }
}

/// The steps from the `k`th on.
spec fn links_src(links: Seq<Link>, k: nat) -> Seq<char>
    decreases links.len() - k,
{
    if k < links.len() {
        "."@ + (link_name(links[k as int]) + (link_mark(links[k as int]) + links_src(links, k + 1)))
    } else {
        Seq::empty()
    }
}

spec fn legible_link(link: Link) -> bool {
    match link {
        Link::Field(name) => is_field(name) && name != "value"@,
        Link::Value => true,
        Link::Select(name) => is_field(name),
    }
}

spec fn legible_links(links: Seq<Link>) -> bool {
    forall|i: int| 0 <= i < links.len() ==> legible_link(#[trigger] links[i])
}

proof fn lemma_links_push(links: Seq<Link>, last: Link, k: nat)
    requires
        k <= links.len(),
    ensures
        links_src(links.push(last), k) == links_src(links, k) + ("."@ + (link_name(last)
            + link_mark(last))),
    decreases links.len() - k,
{
    let all = links.push(last);
    let end = "."@ + (link_name(last) + link_mark(last));
    if k < links.len() {
        lemma_links_push(links, last, k + 1);
        assert(all[k as int] == links[k as int]);
        let (name, mark) = (link_name(links[k as int]), link_mark(links[k as int]));
        let rest = links_src(links, k + 1);
        assert("."@ + (name + (mark + (rest + end))) =~= "."@ + (name + (mark + rest)) + end);
    } else {
        reveal_with_fuel(links_src, 2);
        assert(all[k as int] == last);
        assert(links_src(all, k + 1) =~= Seq::<char>::empty());
        assert(link_mark(last) + Seq::<char>::empty() =~= link_mark(last));
        assert(Seq::<char>::empty() + end =~= end);
    }
}

/// A chain is what it begins with, and its steps.
proof fn lemma_chain(schema: Schema, x: Shape)
    requires
        legible(x),
    ensures
        src(schema, x, Prec::Chain) == src(schema, root(x), Prec::Chain) + links_src(links(x), 0),
        legible_links(links(x)),
        legible(root(x)),
        !is_chain(root(x)),
        is_chain(x) ==> decreases_to!(x => root(x)),
        !is_chain(x) ==> root(x) == x && links(x).len() == 0,
    decreases x,
{
    let start = src(schema, root(x), Prec::Chain);
    match x {
        Shape::Field(name, base) => {
            lemma_chain(schema, *base);
            lemma_links_push(links(*base), Link::Field(name), 0);
            lemma_legible_push(links(*base), Link::Field(name));
            let before = links_src(links(*base), 0);
            assert(name + Seq::<char>::empty() =~= name);
            assert(start + before + ("."@ + name) =~= start + (before + ("."@ + name)));
        },
        Shape::Value(base) => {
            lemma_chain(schema, *base);
            lemma_links_push(links(*base), Link::Value, 0);
            lemma_legible_push(links(*base), Link::Value);
            let before = links_src(links(*base), 0);
            reveal_strlit(".value");
            reveal_strlit(".");
            reveal_strlit("value");
            assert("."@ + ("value"@ + Seq::<char>::empty()) =~= ".value"@);
            assert(start + before + ".value"@ =~= start + (before + ".value"@));
        },
        Shape::Select(name, base) => {
            lemma_chain(schema, *base);
            lemma_links_push(links(*base), Link::Select(name), 0);
            lemma_legible_push(links(*base), Link::Select(name));
            let before = links_src(links(*base), 0);
            let end = "."@ + (name + "?"@);
            assert(start + before + end =~= start + (before + end));
        },
        _ => {
            assert(start + Seq::<char>::empty() =~= start);
        },
    }
}

proof fn lemma_legible_push(links: Seq<Link>, last: Link)
    requires
        legible_links(links),
        legible_link(last),
    ensures
        legible_links(links.push(last)),
{
    let all = links.push(last);
    assert forall|i: int| 0 <= i < all.len() implies legible_link(#[trigger] all[i]) by {
        if i < links.len() {
            assert(all[i] == links[i]);
        }
    }
}

/// A chain is made of what it begins with and its steps.
proof fn lemma_rebuilt(x: Shape, y: Shape)
    requires
        root(x) == root(y),
        links(x) == links(y),
    ensures
        x == y,
    decreases x,
{
    if is_chain(x) {
        let all = links(x);
        assert(all.len() > 0);
        let base = match x {
            Shape::Field(_, base) => *base,
            Shape::Value(base) => *base,
            Shape::Select(_, base) => *base,
            _ => x,
        };
        let other = match y {
            Shape::Field(_, base) => *base,
            Shape::Value(base) => *base,
            Shape::Select(_, base) => *base,
            _ => y,
        };
        assert(all.drop_last() =~= links(base));
        assert(links(y).drop_last() =~= links(other));
        assert(all.last() == links(y).last());
        lemma_rebuilt(base, other);
    } else {
        assert(links(y).len() == 0);
    }
}

// ---- what may follow --------------------------------------------------------

/// What may stand behind a pattern.
spec fn ends(rest: Seq<char>) -> bool {
    rest.len() > 0 ==> rest[0] == ' ' || rest[0] == ')' || rest[0] == ';' || rest[0] == ','
        || rest[0] == '}'
}

/// What may stand behind a pattern that takes in all its branches.
spec fn ends_all(rest: Seq<char>) -> bool {
    ends(rest) && !(rest.len() > 1 && rest[0] == ' ' && rest[1] == '|')
}

/// What may stand behind what a chain begins with.
spec fn goes_on(rest: Seq<char>) -> bool {
    rest.len() > 0 ==> !of_a_name()(rest[0]) && !(rest.len() > 1 && rest[0] == '.' && rest[1]
        == '.')
}

proof fn lemma_links_go_on(links: Seq<Link>, k: nat, s: Seq<char>)
    requires
        legible_links(links),
        ends(s),
    ensures
        ({
            let rest = links_src(links, k) + s;
            &&& goes_on(rest)
            &&& rest.len() > 0 ==> rest[0] != '?'
            &&& k < links.len() ==> rest.len() > 0 && rest[0] == '.'
            &&& k >= links.len() ==> rest == s
        }),
{
    reveal_strlit(".");
    reveal_strlit("value");
    if k < links.len() {
        assert(legible_link(links[k as int]));
        let name = link_name(links[k as int]);
        let all = links_src(links, k) + s;
        assert(name.len() > 0 && of_a_name()(name[0]));
        assert(all[1] == name[0]);
    } else {
        assert(links_src(links, k) + s =~= s);
    }
}

/// Steps are told apart.
proof fn lemma_links(a: Seq<Link>, b: Seq<Link>, k: nat, s: Seq<char>, t: Seq<char>)
    requires
        legible_links(a),
        legible_links(b),
        ends(s),
        ends(t),
        k <= a.len(),
        k <= b.len(),
        links_src(a, k) + s == links_src(b, k) + t,
    ensures
        a.len() == b.len(),
        forall|i: int| k <= i < a.len() ==> a[i] == #[trigger] b[i],
        s == t,
    decreases a.len() - k,
{
    lemma_links_go_on(a, k, s);
    lemma_links_go_on(b, k, t);
    if k < a.len() && k < b.len() {
        reveal_strlit("value");
        reveal_strlit("?");
        let (x, y) = (a[k as int], b[k as int]);
        assert(legible_link(x) && legible_link(y));
        let (more, rest) = (links_src(a, k + 1) + s, links_src(b, k + 1) + t);
        lemma_links_go_on(a, k + 1, s);
        lemma_links_go_on(b, k + 1, t);
        let (p, q) = (link_mark(x) + more, link_mark(y) + rest);
        assert(links_src(a, k) + s =~= "."@ + (link_name(x) + p));
        assert(links_src(b, k) + t =~= "."@ + (link_name(y) + q));
        apart::lemma_strip("."@, link_name(x) + p, link_name(y) + q);
        assert(apart::all_of(of_a_name(), link_name(x)));
        assert(apart::all_of(of_a_name(), link_name(y)));
        assert(x is Select ==> p[0] == '?');
        assert(y is Select ==> q[0] == '?');
        assert(!(x is Select) ==> p =~= more);
        assert(!(y is Select) ==> q =~= rest);
        apart::lemma_word(of_a_name(), link_name(x), link_name(y), p, q);
        assert(x is Select == y is Select);
        if x is Select {
            apart::lemma_strip("?"@, more, rest);
        }
        assert(x == y);
        lemma_links(a, b, k + 1, s, t);
    }
}

// ---- how a pattern begins ---------------------------------------------------

/// What a pattern that is no chain begins with, where only a chain is permitted.
spec fn begins(x: Shape, c: char) -> bool {
    match x {
        Shape::Wildcard => c == '_',
        Shape::Never => c == 'n',
        Shape::Var(_) => of_a_name()(c) && c != '_' && !('0' <= c <= '9') && !('a' <= c <= 'z'),
        Shape::Int(_) => c == '-' || '0' <= c <= '9',
        Shape::Str(_) => c == '"',
        Shape::Prefix(_) => c == '"',
        Shape::Record(_) => c == '{',
        Shape::Fact(_, _) => c == '(',
        Shape::Disjunction(_) => c == '(',
        Shape::Subquery(_, _) => c == '(',
        _ => false,
    }
}

proof fn lemma_begins(schema: Schema, x: Shape, s: Seq<char>)
    requires
        legible(x),
        !is_chain(x),
    ensures
        ({
            let all = src(schema, x, Prec::Chain) + s;
            all.len() > 0 && begins(x, all[0])
        }),
{
    reveal_strlit("_");
    reveal_strlit("never");
    reveal_strlit("-");
    reveal_strlit("\"");
    reveal_strlit("{");
    reveal_strlit("(");
    match x {
        Shape::Int(value) => {
            let size = if value < 0 {
                -(value as int)
            } else {
                value as int
            } as nat;
            lexer::lemma_decimal(size);
        },
        _ => {},
    }
}

/// A fact pattern begins with a small letter, and no other pattern reads as one.
proof fn lemma_fact_apart(
    schema: Schema,
    predicate: PredicateId,
    more: Seq<char>,
    y: Shape,
    t: Seq<char>,
)
    requires
        names_predicates_apart(schema),
        legible(y),
        !(y is Fact),
        ends(t),
    ensures
        print::predicate_name(schema, predicate) + (" "@ + more) != src(schema, y, Prec::Application) + t,
{
    let name = print::predicate_name(schema, predicate);
    let a = name + (" "@ + more);
    let b = src(schema, y, Prec::Application) + t;
    assert(is_predicate(name));
    reveal_strlit(" ");
    reveal_strlit("never");
    lemma_chain(schema, y);
    assert(src(schema, y, Prec::Application) == src(schema, y, Prec::Chain));
    let rest = links_src(links(y), 0) + t;
    assert(b =~= src(schema, root(y), Prec::Chain) + rest);
    lemma_begins(schema, root(y), rest);
    lemma_links_go_on(links(y), 0, t);
    if a == b {
        assert(a[0] == name[0]);
        assert(root(y) is Never);
        assert(b =~= "never"@ + rest);
        assert(b.take(5) =~= "never"@);
        assert(a[name.len() as int] == ' ');
        assert(name.len() >= 5) by {
            if name.len() < 5 {
                assert(b[name.len() as int] == "never"@[name.len() as int]);
            }
        }
        assert(name.take(5) =~= a.take(5));
        if name.len() > 5 {
            assert(a[5] == name[5]);
            assert(b[5] == rest[0]);
            assert(of_a_predicate()(name[5]));
        }
    }
}

/// What a pattern begins with, whatever is permitted.
proof fn lemma_starts(schema: Schema, x: Shape, permitted: Prec, s: Seq<char>)
    requires
        names_predicates_apart(schema),
        legible(x),
        permitted != Prec::Primary,
    ensures
        ({
            let all = src(schema, x, permitted) + s;
            &&& all.len() > 0
            &&& all[0] != ')'
            &&& all[0] != '!'
            &&& all[0] != '}'
            &&& all[0] != ';'
        }),
    decreases x,
{
    let all = src(schema, x, permitted) + s;
    match x {
        Shape::Fact(predicate, key) if permitted != Prec::Chain => {
            assert(is_predicate(print::predicate_name(schema, predicate)));
            assert(all[0] == print::predicate_name(schema, predicate)[0]);
        },
        Shape::Disjunction(branches) if permitted == Prec::Disjunction => {
            let rest = branches_src(schema, x, 1) + s;
            lemma_starts(schema, branches[0], Prec::Application, rest);
            lemma_first_branch(schema, x, s);
            assert(all =~= src(schema, branches[0], Prec::Application) + rest);
        },
        _ => {
            lemma_chain(schema, x);
            assert(src(schema, x, permitted) == src(schema, x, Prec::Chain));
            let rest = links_src(links(x), 0) + s;
            assert(all =~= src(schema, root(x), Prec::Chain) + rest);
            lemma_begins(schema, root(x), rest);
        },
    }
}

// ---- sources are told apart -------------------------------------------------

/// What a chain begins with.
#[verifier::rlimit(60)]
proof fn lemma_primary(schema: Schema, x: Shape, y: Shape, u: Seq<char>, v: Seq<char>)
    requires
        names_predicates_apart(schema),
        legible(x),
        legible(y),
        !is_chain(x),
        !is_chain(y),
        goes_on(u),
        goes_on(v),
        src(schema, x, Prec::Chain) + u == src(schema, y, Prec::Chain) + v,
    ensures
        x == y,
        u == v,
    decreases x, 1nat, 1nat,
{
    lemma_begins(schema, x, u);
    lemma_begins(schema, y, v);
    match (x, y) {
        (Shape::Wildcard, Shape::Wildcard) => apart::lemma_strip("_"@, u, v),
        (Shape::Never, Shape::Never) => apart::lemma_strip("never"@, u, v),
        (Shape::Var(name), Shape::Var(other)) => apart::lemma_word(of_a_name(), name, other, u, v),
        (Shape::Int(value), Shape::Int(other)) => {
            apart::lemma_integers(value as int, other as int, u, v);
        },
        (Shape::Str(a), Shape::Str(b)) => print::law_escaped_strings_are_told_apart(a, b, u, v),
        (Shape::Prefix(a), Shape::Prefix(b)) => {
            assert(print::escaped(a) + ".."@ + u =~= print::escaped(a) + (".."@ + u));
            assert(print::escaped(b) + ".."@ + v =~= print::escaped(b) + (".."@ + v));
            print::law_escaped_strings_are_told_apart(a, b, ".."@ + u, ".."@ + v);
            apart::lemma_strip(".."@, u, v);
        },
        (Shape::Str(a), Shape::Prefix(b)) => {
            reveal_strlit("..");
            assert(print::escaped(b) + ".."@ + v =~= print::escaped(b) + (".."@ + v));
            print::law_escaped_strings_are_told_apart(a, b, u, ".."@ + v);
        },
        (Shape::Prefix(a), Shape::Str(b)) => {
            reveal_strlit("..");
            assert(print::escaped(a) + ".."@ + u =~= print::escaped(a) + (".."@ + u));
            print::law_escaped_strings_are_told_apart(a, b, ".."@ + u, v);
        },
        (Shape::Record(fields), Shape::Record(others)) => {
            let (a, b) = (fields_src(schema, x, 0), fields_src(schema, y, 0));
            lemma_wrapped("{"@, a, "}"@, u);
            lemma_wrapped("{"@, b, "}"@, v);
            apart::lemma_strip("{"@, a + ("}"@ + u), b + ("}"@ + v));
            lemma_fields_apart(schema, x, y, 0, u, v);
            assert(fields =~= others);
        },
        _ => {
            assert(begins(x, '(') && begins(y, '('));
            lemma_parenthesised(schema, x, y, u, v);
        },
    }
}

proof fn lemma_wrapped(p: Seq<char>, a: Seq<char>, q: Seq<char>, u: Seq<char>)
    ensures
        (p + (a + q)) + u == p + (a + (q + u)),
{
    assert((p + (a + q)) + u =~= p + (a + (q + u)));
}

/// What stands first inside parentheses.
spec fn inside(x: Shape) -> Shape {
    match x {
        Shape::Subquery(head, _) => *head,
        _ => x,
    }
}

/// What stands behind that, up to the end of them.
spec fn closing(schema: Schema, x: Shape) -> Seq<char> {
    match x {
        Shape::Subquery(_, _) => " where "@ + (stmts_src(schema, x, 0) + ")"@),
        _ => ")"@,
    }
}

proof fn lemma_opened(schema: Schema, x: Shape, u: Seq<char>)
    requires
        x is Subquery || x is Fact || x is Disjunction,
    ensures
        src(schema, x, Prec::Chain) + u == "("@ + (src(schema, inside(x), Prec::Disjunction) + (
        closing(schema, x) + u)),
        ends_all(closing(schema, x) + u),
{
    reveal_strlit(" where ");
    reveal_strlit(")");
    let first = src(schema, inside(x), Prec::Disjunction);
    if x is Subquery {
        let stmts = stmts_src(schema, x, 0);
        assert(src(schema, x, Prec::Chain) == own(schema, x));
        assert(own(schema, x) == "("@ + (query_src(schema, x) + ")"@));
        assert(query_src(schema, x) == first + (" where "@ + stmts));
        assert("("@ + (first + (" where "@ + stmts) + ")"@) + u =~= "("@ + (first + (" where "@ + (
        stmts + ")"@) + u)));
    } else {
        assert(first == own(schema, x));
        assert(src(schema, x, Prec::Chain) == "("@ + (own(schema, x) + ")"@));
        lemma_wrapped("("@, first, ")"@, u);
    }
    let rest = closing(schema, x) + u;
    if x is Subquery {
        assert(rest[0] == ' ' && rest[1] == 'w');
    } else {
        assert(rest[0] == ')');
    }
}

proof fn lemma_parenthesised(schema: Schema, x: Shape, y: Shape, u: Seq<char>, v: Seq<char>)
    requires
        names_predicates_apart(schema),
        legible(x),
        legible(y),
        x is Subquery || x is Fact || x is Disjunction,
        y is Subquery || y is Fact || y is Disjunction,
        src(schema, x, Prec::Chain) + u == src(schema, y, Prec::Chain) + v,
    ensures
        x == y,
        u == v,
    decreases x, 1nat, 0nat,
{
    reveal_strlit(" where ");
    reveal_strlit(")");
    lemma_opened(schema, x, u);
    lemma_opened(schema, y, v);
    let (p, q) = (inside(x), inside(y));
    let (s, t) = (closing(schema, x) + u, closing(schema, y) + v);
    apart::lemma_strip(
        "("@,
        src(schema, p, Prec::Disjunction) + s,
        src(schema, q, Prec::Disjunction) + t,
    );
    if x is Subquery {
        lemma_top(schema, p, q, s, t);
    } else {
        lemma_open(schema, x, q, s, t);
    }
    assert(s[0] == t[0]);
    if x is Subquery {
        assert(y is Subquery);
        let (a, b) = (stmts_src(schema, x, 0), stmts_src(schema, y, 0));
        lemma_wrapped(" where "@, a, ")"@, u);
        lemma_wrapped(" where "@, b, ")"@, v);
        apart::lemma_strip(" where "@, a + (")"@ + u), b + (")"@ + v));
        lemma_stmts_apart(schema, x, y, 0, ")"@ + u, ")"@ + v);
        assert(x->Subquery_1 =~= y->Subquery_1);
    } else {
        assert(!(y is Subquery));
    }
    apart::lemma_strip(")"@, u, v);
}

/// A fact pattern or a disjunction, where anything is permitted.
proof fn lemma_open(schema: Schema, x: Shape, y: Shape, s: Seq<char>, t: Seq<char>)
    requires
        names_predicates_apart(schema),
        legible(x),
        legible(y),
        x is Fact || x is Disjunction,
        ends_all(s),
        ends_all(t),
        src(schema, x, Prec::Disjunction) + s == src(schema, y, Prec::Disjunction) + t,
    ensures
        x == y,
        s == t,
    decreases x, 0nat, x->Disjunction_0.len() + 1,
{
    reveal_strlit(" | ");
    if y is Disjunction {
        lemma_first_branch(schema, y, t);
    }
    if x is Disjunction {
        lemma_first_branch(schema, x, s);
        if y is Disjunction {
            lemma_branches_apart(schema, x, y, 0, s, t);
            assert(x->Disjunction_0 =~= y->Disjunction_0);
        } else {
            let rest = branches_src(schema, x, 1) + s;
            assert(src(schema, y, Prec::Disjunction) == src(schema, y, Prec::Application));
            lemma_application(schema, x->Disjunction_0[0], y, rest, t);
        }
    } else {
        assert(src(schema, x, Prec::Disjunction) == src(schema, x, Prec::Application));
        if y is Disjunction {
            let rest = branches_src(schema, y, 1) + t;
            lemma_fact(schema, x, y->Disjunction_0[0], s, rest);
        } else {
            assert(src(schema, y, Prec::Disjunction) == src(schema, y, Prec::Application));
            lemma_fact(schema, x, y, s, t);
        }
    }
}

proof fn lemma_first_branch(schema: Schema, x: Shape, s: Seq<char>)
    requires
        legible(x),
        x is Disjunction,
    ensures
        ({
            let rest = branches_src(schema, x, 1) + s;
            &&& src(schema, x, Prec::Disjunction) + s == src(
                schema,
                x->Disjunction_0[0],
                Prec::Application,
            ) + rest
            &&& ends(rest)
            &&& rest.len() > 1 && rest[0] == ' ' && rest[1] == '|'
        }),
{
    reveal_strlit(" | ");
    let rest = branches_src(schema, x, 1) + s;
    let first = src(schema, x->Disjunction_0[0], Prec::Application);
    assert(src(schema, x, Prec::Disjunction) == branches_src(schema, x, 0));
    assert(branches_src(schema, x, 0) == between(" | "@, 0) + (first + branches_src(
        schema,
        x,
        1,
    )));
    assert(between(" | "@, 0) + (first + branches_src(schema, x, 1)) + s =~= first + rest);
    assert(branches_src(schema, x, 1) == " | "@ + (src(
        schema,
        x->Disjunction_0[1],
        Prec::Application,
    ) + branches_src(schema, x, 2)));
    assert(rest[0] == ' ' && rest[1] == '|');
}

/// A fact pattern.
proof fn lemma_fact(schema: Schema, x: Shape, y: Shape, s: Seq<char>, t: Seq<char>)
    requires
        names_predicates_apart(schema),
        legible(x),
        legible(y),
        x is Fact,
        ends(s),
        ends(t),
        src(schema, x, Prec::Application) + s == src(schema, y, Prec::Application) + t,
    ensures
        x == y,
        s == t,
    decreases x, 0nat, 0nat,
{
    reveal_strlit(" ");
    if let Shape::Fact(p, key) = x {
        let more = src(schema, *key, Prec::Application) + s;
        let name = print::predicate_name(schema, p);
        assert(src(schema, x, Prec::Application) + s =~= name + (" "@ + more));
        if let Shape::Fact(q, other) = y {
            let rest = src(schema, *other, Prec::Application) + t;
            let named = print::predicate_name(schema, q);
            assert(src(schema, y, Prec::Application) + t =~= named + (" "@ + rest));
            assert(is_predicate(name) && is_predicate(named));
            apart::lemma_word(of_a_predicate(), name, named, " "@ + more, " "@ + rest);
            apart::lemma_strip(" "@, more, rest);
            lemma_application(schema, *key, *other, s, t);
        } else {
            lemma_fact_apart(schema, p, more, y, t);
        }
    }
}

/// A pattern that is no disjunction.
proof fn lemma_application(schema: Schema, x: Shape, y: Shape, s: Seq<char>, t: Seq<char>)
    requires
        names_predicates_apart(schema),
        legible(x),
        legible(y),
        ends(s),
        ends(t),
        src(schema, x, Prec::Application) + s == src(schema, y, Prec::Application) + t,
    ensures
        x == y,
        s == t,
    decreases x, 2nat, 0nat,
{
    if x is Fact {
        lemma_fact(schema, x, y, s, t);
    } else if let Shape::Fact(q, other) = y {
        let rest = src(schema, *other, Prec::Application) + t;
        assert(src(schema, y, Prec::Application) + t =~= print::predicate_name(schema, q) + (" "@ + rest));
        lemma_fact_apart(schema, q, rest, x, s);
    } else {
        assert(src(schema, x, Prec::Application) == src(schema, x, Prec::Chain));
        assert(src(schema, y, Prec::Application) == src(schema, y, Prec::Chain));
        lemma_chain(schema, x);
        lemma_chain(schema, y);
        let (p, q) = (src(schema, root(x), Prec::Chain), src(schema, root(y), Prec::Chain));
        let (a, b) = (links_src(links(x), 0), links_src(links(y), 0));
        assert(p + a + s =~= p + (a + s));
        assert(q + b + t =~= q + (b + t));
        lemma_links_go_on(links(x), 0, s);
        lemma_links_go_on(links(y), 0, t);
        lemma_primary(schema, root(x), root(y), a + s, b + t);
        lemma_links(links(x), links(y), 0, s, t);
        assert(links(x) =~= links(y));
        lemma_rebuilt(x, y);
    }
}

/// Any pattern, where anything is permitted.
proof fn lemma_top(schema: Schema, x: Shape, y: Shape, s: Seq<char>, t: Seq<char>)
    requires
        names_predicates_apart(schema),
        legible(x),
        legible(y),
        ends_all(s),
        ends_all(t),
        src(schema, x, Prec::Disjunction) + s == src(schema, y, Prec::Disjunction) + t,
    ensures
        x == y,
        s == t,
    decreases x, 3nat, 0nat,
{
    if x is Fact || x is Disjunction {
        lemma_open(schema, x, y, s, t);
    } else {
        assert(src(schema, x, Prec::Disjunction) == src(schema, x, Prec::Application));
        if y is Disjunction {
            lemma_first_branch(schema, y, t);
            let rest = branches_src(schema, y, 1) + t;
            lemma_application(schema, x, y->Disjunction_0[0], s, rest);
        } else {
            assert(src(schema, y, Prec::Disjunction) == src(schema, y, Prec::Application));
            lemma_application(schema, x, y, s, t);
        }
    }
}

proof fn lemma_branches_end(schema: Schema, x: Shape, k: nat, s: Seq<char>)
    requires
        x is Disjunction,
        k > 0,
        ends_all(s),
    ensures
        ({
            let rest = branches_src(schema, x, k) + s;
            &&& ends(rest)
            &&& k < x->Disjunction_0.len() ==> !ends_all(rest)
            &&& k >= x->Disjunction_0.len() ==> rest == s
        }),
{
    reveal_strlit(" | ");
    let rest = branches_src(schema, x, k) + s;
    if k < x->Disjunction_0.len() {
        assert(rest[0] == ' ' && rest[1] == '|');
    } else {
        assert(rest =~= s);
    }
}

proof fn lemma_branches_apart(
    schema: Schema,
    x: Shape,
    y: Shape,
    k: nat,
    s: Seq<char>,
    t: Seq<char>,
)
    requires
        names_predicates_apart(schema),
        legible(x),
        legible(y),
        x is Disjunction,
        y is Disjunction,
        k <= x->Disjunction_0.len(),
        k <= y->Disjunction_0.len(),
        ends_all(s),
        ends_all(t),
        branches_src(schema, x, k) + s == branches_src(schema, y, k) + t,
    ensures
        x->Disjunction_0.len() == y->Disjunction_0.len(),
        forall|i: int|
            k <= i < x->Disjunction_0.len() ==> x->Disjunction_0[i]
                == #[trigger] y->Disjunction_0[i],
        s == t,
    decreases x, 0nat, x->Disjunction_0.len() - k,
{
    let (branches, others) = (x->Disjunction_0, y->Disjunction_0);
    if k > 0 {
        lemma_branches_end(schema, x, k, s);
        lemma_branches_end(schema, y, k, t);
    }
    if k < branches.len() {
        assert(k < others.len());
        let (more, rest) = (branches_src(schema, x, k + 1) + s, branches_src(schema, y, k + 1) + t);
        let (a, b) = (
            src(schema, branches[k as int], Prec::Application),
            src(schema, others[k as int], Prec::Application),
        );
        let sign = between(" | "@, k);
        assert(branches_src(schema, x, k) + s =~= sign + (a + more));
        assert(branches_src(schema, y, k) + t =~= sign + (b + rest));
        apart::lemma_strip(sign, a + more, b + rest);
        lemma_branches_end(schema, x, k + 1, s);
        lemma_branches_end(schema, y, k + 1, t);
        lemma_application(schema, branches[k as int], others[k as int], more, rest);
        lemma_branches_apart(schema, x, y, k + 1, s, t);
    }
}

/// What stands behind the first fields of a record.
proof fn lemma_fields_end(schema: Schema, x: Shape, k: nat, u: Seq<char>)
    requires
        x is Record,
        legible(x),
    ensures
        ({
            let rest = fields_src(schema, x, k) + ("}"@ + u);
            &&& rest.len() > 0
            &&& k > 0 ==> ends_all(rest)
            &&& k < x->Record_0.len() ==> rest[0] != '}'
            &&& k >= x->Record_0.len() ==> rest == "}"@ + u && rest[0] == '}'
        }),
{
    reveal_strlit(", ");
    reveal_strlit("}");
    reveal_strlit(" = ");
    let rest = fields_src(schema, x, k) + ("}"@ + u);
    if k < x->Record_0.len() {
        let name = x->Record_0[k as int].0;
        assert(is_field(name));
        assert(of_a_name()(name[0]));
        if k > 0 {
            assert(rest[0] == ',');
        } else {
            assert(rest[0] == name[0]);
        }
    } else {
        assert(rest =~= "}"@ + u);
    }
}

proof fn lemma_fields_apart(
    schema: Schema,
    x: Shape,
    y: Shape,
    k: nat,
    u: Seq<char>,
    v: Seq<char>,
)
    requires
        names_predicates_apart(schema),
        legible(x),
        legible(y),
        x is Record,
        y is Record,
        k <= x->Record_0.len(),
        k <= y->Record_0.len(),
        fields_src(schema, x, k) + ("}"@ + u) == fields_src(schema, y, k) + ("}"@ + v),
    ensures
        x->Record_0.len() == y->Record_0.len(),
        forall|i: int| k <= i < x->Record_0.len() ==> x->Record_0[i] == #[trigger] y->Record_0[i],
        u == v,
    decreases x, 0nat, x->Record_0.len() - k,
{
    let (fields, others) = (x->Record_0, y->Record_0);
    lemma_fields_end(schema, x, k, u);
    lemma_fields_end(schema, y, k, v);
    if k < fields.len() {
        reveal_strlit(" = ");
        assert(k < others.len());
        let (name, inner) = fields[k as int];
        let (other, under) = others[k as int];
        assert(is_field(name) && is_field(other));
        let more = fields_src(schema, x, k + 1) + ("}"@ + u);
        let rest = fields_src(schema, y, k + 1) + ("}"@ + v);
        let (a, b) = (
            src(schema, inner, Prec::Disjunction) + more,
            src(schema, under, Prec::Disjunction) + rest,
        );
        let sign = between(", "@, k);
        assert(fields_src(schema, x, k) + ("}"@ + u) =~= sign + (name + (" = "@ + a)));
        assert(fields_src(schema, y, k) + ("}"@ + v) =~= sign + (other + (" = "@ + b)));
        apart::lemma_strip(sign, name + (" = "@ + a), other + (" = "@ + b));
        apart::lemma_word(of_a_name(), name, other, " = "@ + a, " = "@ + b);
        apart::lemma_strip(" = "@, a, b);
        lemma_fields_end(schema, x, k + 1, u);
        lemma_fields_end(schema, y, k + 1, v);
        lemma_top(schema, inner, under, more, rest);
        lemma_fields_apart(schema, x, y, k + 1, u, v);
    } else {
        assert(k >= others.len());
        apart::lemma_strip("}"@, u, v);
    }
}

/// What may stand behind a query.
spec fn ends_query(rest: Seq<char>) -> bool {
    rest.len() > 0 ==> rest[0] == ')'
}

/// What stands behind the first statements of a query.
proof fn lemma_stmts_end(schema: Schema, x: Shape, k: nat, s: Seq<char>)
    requires
        names_predicates_apart(schema),
        x is Subquery,
        legible(x),
        ends_query(s),
    ensures
        ({
            let rest = stmts_src(schema, x, k) + s;
            &&& k > 0 ==> ends_all(rest) && (rest.len() > 0 ==> rest[0] != ' ')
            &&& k < x->Subquery_1.len() ==> rest.len() > 0 && rest[0] != ')'
            &&& k >= x->Subquery_1.len() ==> rest == s
        }),
{
    reveal_strlit("; ");
    reveal_strlit("!");
    let rest = stmts_src(schema, x, k) + s;
    if k < x->Subquery_1.len() {
        let said = x->Subquery_1[k as int];
        let more = stmts_src(schema, x, k + 1) + s;
        assert(legibly_said(said));
        if k > 0 {
            assert(rest[0] == ';');
        } else {
            assert(rest =~= said_src(schema, said) + more);
            lemma_said_starts(schema, said, more);
        }
    } else {
        assert(rest =~= s);
    }
}

proof fn lemma_said_starts(schema: Schema, said: Said, s: Seq<char>)
    requires
        names_predicates_apart(schema),
        legibly_said(said),
    ensures
        ({
            let all = said_src(schema, said) + s;
            all.len() > 0 && all[0] != ')' && (all[0] == '!') == (said is Negation)
        }),
{
    reveal_strlit("!");
    match said {
        Said::Implicit(x) => lemma_starts(schema, x, Prec::Disjunction, s),
        Said::Bind(x, y) => {
            let rest = " = "@ + src(schema, y, Prec::Disjunction) + s;
            lemma_starts(schema, x, Prec::Disjunction, rest);
            assert(said_src(schema, said) + s =~= src(schema, x, Prec::Disjunction) + rest);
        },
        Said::Negation(x) => {},
    }
}

proof fn lemma_said_apart(schema: Schema, x: Said, y: Said, s: Seq<char>, t: Seq<char>)
    requires
        names_predicates_apart(schema),
        legibly_said(x),
        legibly_said(y),
        ends_all(s),
        ends_all(t),
        s.len() > 0 ==> s[0] != ' ',
        t.len() > 0 ==> t[0] != ' ',
        said_src(schema, x) + s == said_src(schema, y) + t,
    ensures
        x == y,
        s == t,
    decreases x, 1nat, 0nat,
{
    reveal_strlit(" = ");
    lemma_said_starts(schema, x, s);
    lemma_said_starts(schema, y, t);
    let first = |said: Said|
        match said {
            Said::Implicit(a) => a,
            Said::Bind(a, _) => a,
            Said::Negation(a) => a,
        };
    let (a, b) = (first(x), first(y));
    let (p, q) = (src(schema, a, Prec::Disjunction), src(schema, b, Prec::Disjunction));
    let more = match x {
        Said::Bind(_, c) => " = "@ + (src(schema, c, Prec::Disjunction) + s),
        _ => s,
    };
    let rest = match y {
        Said::Bind(_, d) => " = "@ + (src(schema, d, Prec::Disjunction) + t),
        _ => t,
    };
    if x is Negation {
        assert(said_src(schema, x) + s =~= "!"@ + (p + s));
        assert(said_src(schema, y) + t =~= "!"@ + (q + t));
        apart::lemma_strip("!"@, p + s, q + t);
    } else {
        assert(said_src(schema, x) + s =~= p + more);
        assert(said_src(schema, y) + t =~= q + rest);
    }
    assert(x is Bind ==> more[0] == ' ' && more[1] == '=');
    assert(y is Bind ==> rest[0] == ' ' && rest[1] == '=');
    lemma_top(schema, a, b, more, rest);
    if let (Said::Bind(_, c), Said::Bind(_, d)) = (x, y) {
        let (m, n) = (
            src(schema, c, Prec::Disjunction) + s,
            src(schema, d, Prec::Disjunction) + t,
        );
        apart::lemma_strip(" = "@, m, n);
        lemma_top(schema, c, d, s, t);
    }
}

proof fn lemma_stmts_apart(
    schema: Schema,
    x: Shape,
    y: Shape,
    k: nat,
    s: Seq<char>,
    t: Seq<char>,
)
    requires
        names_predicates_apart(schema),
        legible(x),
        legible(y),
        x is Subquery,
        y is Subquery,
        k <= x->Subquery_1.len(),
        k <= y->Subquery_1.len(),
        ends_query(s),
        ends_query(t),
        stmts_src(schema, x, k) + s == stmts_src(schema, y, k) + t,
    ensures
        x->Subquery_1.len() == y->Subquery_1.len(),
        forall|i: int|
            k <= i < x->Subquery_1.len() ==> x->Subquery_1[i] == #[trigger] y->Subquery_1[i],
        s == t,
    decreases x, 0nat, x->Subquery_1.len() - k,
{
    let (body, others) = (x->Subquery_1, y->Subquery_1);
    lemma_stmts_end(schema, x, k, s);
    lemma_stmts_end(schema, y, k, t);
    if k < body.len() {
        assert(k < others.len());
        let (more, rest) = (stmts_src(schema, x, k + 1) + s, stmts_src(schema, y, k + 1) + t);
        let (a, b) = (said_src(schema, body[k as int]), said_src(schema, others[k as int]));
        let sign = between("; "@, k);
        assert(stmts_src(schema, x, k) + s =~= sign + (a + more));
        assert(stmts_src(schema, y, k) + t =~= sign + (b + rest));
        apart::lemma_strip(sign, a + more, b + rest);
        lemma_stmts_end(schema, x, k + 1, s);
        lemma_stmts_end(schema, y, k + 1, t);
        lemma_said_apart(schema, body[k as int], others[k as int], more, rest);
        lemma_stmts_apart(schema, x, y, k + 1, s, t);
    } else {
        assert(k >= others.len());
    }
}

/// Queries with the same source say the same.
proof fn lemma_queries_apart(schema: Schema, x: Shape, y: Shape)
    requires
        names_predicates_apart(schema),
        x is Subquery,
        y is Subquery,
        legible(x),
        legible(y),
        query_src(schema, x) == query_src(schema, y),
    ensures
        x->Subquery_0 == y->Subquery_0,
        x->Subquery_1 == y->Subquery_1,
{
    let none = Seq::<char>::empty();
    reveal_strlit(" where ");
    let (head, other) = (*x->Subquery_0, *y->Subquery_0);
    let (s, t) = (" where "@ + stmts_src(schema, x, 0), " where "@ + stmts_src(schema, y, 0));
    assert(s[0] == ' ' && s[1] == 'w');
    assert(t[0] == ' ' && t[1] == 'w');
    lemma_top(schema, head, other, s, t);
    let (c, d) = (stmts_src(schema, x, 0), stmts_src(schema, y, 0));
    apart::lemma_strip(" where "@, c, d);
    assert(c + none =~= c);
    assert(d + none =~= d);
    lemma_stmts_apart(schema, x, y, 0, none, none);
    assert(x->Subquery_1 =~= y->Subquery_1);
}

/// A printed text has one shape: trees that print the same under one schema say the same. So
/// what a tree says can be read off its text, and nothing it says is left out of it: no
/// statement, no branch, no field, no parenthesis that matters. The trees are such as source
/// can say, and the schema names its predicates apart.
pub proof fn law_one_text_has_one_shape(
    a: Ast,
    names: Names,
    b: Ast,
    others: Names,
    schema: Schema,
)
    requires
        a.wf(),
        b.wf(),
        names_predicates_apart(schema),
        legible(Shape::Subquery(Box::new(shape::head_of(a, names)), shape::body_of(a, names))),
        legible(Shape::Subquery(Box::new(shape::head_of(b, others)), shape::body_of(b, others))),
        print::page_of(a, schema, names).text == print::page_of(b, schema, others).text,
    ensures
        shape::head_of(a, names) == shape::head_of(b, others),
        shape::body_of(a, names) == shape::body_of(b, others),
{
    let x = Shape::Subquery(Box::new(shape::head_of(a, names)), shape::body_of(a, names));
    let y = Shape::Subquery(Box::new(shape::head_of(b, others)), shape::body_of(b, others));
    let (m, n) = (a.tree().kinds().len(), b.tree().kinds().len());
    let none = Seq::<char>::empty();
    let blank = Page {
        text: none,
        spans: Seq::new(m, |i: int| syntax::NodeSpan { start: 0, end: 0 }),
    };
    let empty = Page {
        text: none,
        spans: Seq::new(n, |i: int| syntax::NodeSpan { start: 0, end: 0 }),
    };
    lemma_query(Script { ast: a, schema, names }, a.root(), m, x, blank);
    lemma_query(Script { ast: b, schema, names: others }, b.root(), n, y, empty);
    let (p, q) = (query_src(schema, x), query_src(schema, y));
    assert(none + p =~= p);
    assert(none + q =~= q);
    lemma_queries_apart(schema, x, y);
}

} // verus!
