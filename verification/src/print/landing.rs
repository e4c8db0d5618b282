//! Where nodes were printed: what stands at a node's span is the node's own text.
use vstd::prelude::*;
use vstd::utf8::*;

use super::{Page, Prec, Script};
use crate::print;
use crate::schema::{Names, Schema, Symbol};
use crate::shape::sources;
use crate::syntax;
use crate::syntax::{Ast, ExprKind, NodeId, Query, QueryStmt};

verus! {

// ---- what is printed --------------------------------------------------------

/// Whether a statement names a node.
pub open spec fn in_stmt(stmt: QueryStmt, node: NodeId) -> bool {
    match stmt {
        QueryStmt::Implicit(id) => node == id,
        QueryStmt::Bind(lhs, rhs) => node == lhs || node == rhs,
        QueryStmt::Negation(id) => node == id,
    }
}

/// Whether a query names a node.
pub open spec fn in_query(query: Query, node: NodeId) -> bool {
    node == query.head || exists|i: int|
        0 <= i < query.body@.len() && in_stmt(#[trigger] query.body@[i], node)
}

/// Whether a node is one that another is made of.
pub open spec fn is_part(kind: ExprKind, node: NodeId) -> bool {
    match kind {
        ExprKind::Record(fields) => exists|i: int|
            0 <= i < fields@.len() && (#[trigger] fields@[i]).1 == node,
        ExprKind::Access(_, base) => node == base,
        ExprKind::Select(_, base) => node == base,
        ExprKind::Fact(_, key) => node == key,
        ExprKind::Disjunction(branches) => exists|i: int|
            0 <= i < branches@.len() && #[trigger] branches@[i] == node,
        ExprKind::Subquery(query) => in_query(query, node),
        _ => false,
    }
}

/// Whether a node is another or stands somewhere in it.
pub open spec fn holds(ast: Ast, node: NodeId, inner: NodeId) -> bool
    decreases node.0,
{
    node == inner || exists|part: NodeId| #[trigger]
        is_part(ast.kind(node), part) && part.0 < node.0 && holds(ast, part, inner)
}

/// Whether a node stands somewhere in a query.
pub open spec fn stands(ast: Ast, query: Query, inner: NodeId) -> bool {
    exists|part: NodeId| #[trigger] in_query(query, part) && holds(ast, part, inner)
}

/// The text of a node alone.
pub open spec fn alone(script: Script, id: NodeId) -> Seq<char> {
    script.bare(Page { text: Seq::empty(), spans: Seq::empty() }, id).text
}

/// What stands at a node's span is the node's own text.
pub open spec fn landed(script: Script, page: Page, id: NodeId) -> bool {
    let span = page.spans[id.0 as int];
    &&& id.0 < page.spans.len()
    &&& span.start <= span.end <= page.bytes()
    &&& encode_utf8(page.text).subrange(span.start as int, span.end as int) == encode_utf8(
        alone(script, id),
    )
}

/// Offsets into a text as long as this can be kept.
spec fn kept(page: Page) -> bool {
    page.bytes() <= u32::MAX
}

/// Printing on leaves what stands where it is.
spec fn onward(script: Script, page: Page, next: Page) -> bool {
    &&& page.bytes() <= next.bytes()
    &&& next.spans.len() == page.spans.len()
    &&& kept(next) ==> forall|i: NodeId| landed(script, page, i) ==> #[trigger] landed(
        script,
        next,
        i,
    )
}

/// Everything in a node stands where its span is.
spec fn all_landed(script: Script, page: Page, id: NodeId) -> bool {
    kept(page) ==> forall|inner: NodeId| #[trigger]
        holds(script.ast, id, inner) ==> landed(script, page, inner)
}

proof fn lemma_onward(script: Script, a: Page, b: Page, c: Page)
    requires
        onward(script, a, b),
        onward(script, b, c),
    ensures
        onward(script, a, c),
{
    if kept(c) {
        assert forall|i: NodeId| landed(script, a, i) implies #[trigger] landed(script, c, i) by {
            assert(landed(script, b, i));
        }
    }
}

proof fn lemma_still(script: Script, page: Page, next: Page, id: NodeId)
    requires
        all_landed(script, page, id),
        onward(script, page, next),
    ensures
        all_landed(script, next, id),
{
    if kept(next) {
        assert forall|inner: NodeId| #[trigger] holds(script.ast, id, inner) implies landed(
            script,
            next,
            inner,
        ) by {
            assert(landed(script, page, inner));
        }
    }
}

proof fn lemma_encoded(a: Seq<char>, b: Seq<char>)
    ensures
        encode_utf8(a + b) == encode_utf8(a) + encode_utf8(b),
    decreases a.len(),
{
    if a.len() > 0 {
        lemma_encoded(a.drop_first(), b);
        assert((a + b).drop_first() =~= a.drop_first() + b);
        assert((a + b)[0] == a[0]);
        let first = encode_scalar(a[0] as u32);
        assert(encode_utf8(a + b) =~= encode_utf8(a) + encode_utf8(b));
    } else {
        assert(a + b =~= b);
        assert(encode_utf8(a) + encode_utf8(b) =~= encode_utf8(b));
    }
}

proof fn lemma_put(script: Script, page: Page, more: Seq<char>)
    ensures
        onward(script, page, page.put(more)),
{
    let next = page.put(more);
    lemma_encoded(page.text, more);
    assert forall|i: NodeId| landed(script, page, i) implies #[trigger] landed(
        script,
        next,
        i,
    ) by {
        let span = page.spans[i.0 as int];
        assert(encode_utf8(next.text).subrange(span.start as int, span.end as int)
            =~= encode_utf8(page.text).subrange(span.start as int, span.end as int));
    }
}

/// A node that was just printed stands at its span.
proof fn lemma_marked(script: Script, from: Page, page: Page, id: NodeId)
    requires
        id.0 < page.spans.len(),
        page.text == from.text + alone(script, id),
        onward(script, from, page),
    ensures
        onward(script, from, page.marked(id, from.bytes())),
        kept(page) ==> landed(script, page.marked(id, from.bytes()), id),
        kept(page) ==> forall|i: NodeId| landed(script, page, i) ==> #[trigger] landed(
            script,
            page.marked(id, from.bytes()),
            i,
        ),
{
    let next = page.marked(id, from.bytes());
    lemma_encoded(from.text, alone(script, id));
    if kept(page) {
        let span = next.spans[id.0 as int];
        assert(encode_utf8(next.text).subrange(span.start as int, span.end as int) =~= encode_utf8(
            alone(script, id),
        ));
        assert(landed(script, next, id));
        assert forall|i: NodeId| landed(script, page, i) implies #[trigger] landed(
            script,
            next,
            i,
        ) by {
            if i != id {
                assert(next.spans[i.0 as int] == page.spans[i.0 as int]);
            }
        }
        assert forall|i: NodeId| landed(script, from, i) implies #[trigger] landed(
            script,
            next,
            i,
        ) by {
            assert(landed(script, page, i));
        }
    }
}

// ---- printing ---------------------------------------------------------------

proof fn lemma_pattern(script: Script, page: Page, id: NodeId, permitted: Prec)
    requires
        script.ast.wf(),
        script.ast.has(id),
        page.spans.len() == script.ast.tree().kinds().len(),
    ensures
        onward(script, page, script.pattern(page, id, permitted)),
        all_landed(script, script.pattern(page, id, permitted), id),
    decreases id.0, 3nat, 0nat,
{
    let wrapped = print::looseness(script.ast.kind(id)).rank() > permitted.rank();
    let open = if wrapped {
        page.put("("@)
    } else {
        page
    };
    lemma_put(script, page, "("@);
    lemma_bare(script, open, id);
    let shown = script.bare(open, id);
    sources::lemma_alone(script, id, open, Page { text: Seq::empty(), spans: Seq::empty() });
    lemma_marked(script, open, shown, id);
    let next = shown.marked(id, open.bytes());
    assert(all_landed(script, next, id)) by {
        if kept(next) {
            assert forall|inner: NodeId| #[trigger] holds(script.ast, id, inner) implies landed(
                script,
                next,
                inner,
            ) by {
                if inner != id {
                    let part = choose|part: NodeId| #[trigger]
                        is_part(script.ast.kind(id), part) && part.0 < id.0 && holds(
                            script.ast,
                            part,
                            inner,
                        );
                    assert(all_landed(script, shown, part));
                    assert(landed(script, shown, inner));
                }
            }
        }
    }
    if wrapped {
        lemma_onward(script, page, open, next);
        lemma_put(script, next, ")"@);
        lemma_onward(script, page, next, next.put(")"@));
        lemma_still(script, next, next.put(")"@), id);
    }
}

proof fn lemma_bare(script: Script, page: Page, id: NodeId)
    requires
        script.ast.wf(),
        script.ast.has(id),
        page.spans.len() == script.ast.tree().kinds().len(),
    ensures
        onward(script, page, script.bare(page, id)),
        forall|part: NodeId| #[trigger]
            is_part(script.ast.kind(id), part) ==> all_landed(script, script.bare(page, id), part),
    decreases id.0, 2nat, 0nat,
{
    assert(syntax::children_below(script.ast.kind(id), id.0 as nat));
    match script.ast.kind(id) {
        ExprKind::Record(fields) => {
            let open = page.put("{"@);
            lemma_put(script, page, "{"@);
            lemma_fields(script, open, fields@, id.0 as nat, fields@.len());
            let most = script.fields(open, fields@, id.0 as nat, fields@.len());
            lemma_onward(script, page, open, most);
            lemma_put(script, most, "}"@);
            lemma_onward(script, page, most, most.put("}"@));
            assert forall|part: NodeId| #[trigger]
                is_part(script.ast.kind(id), part) implies all_landed(
                script,
                script.bare(page, id),
                part,
            ) by {
                let i = choose|i: int|
                    0 <= i < fields@.len() && (#[trigger] fields@[i]).1 == part;
                assert(all_landed(script, most, fields@[i].1));
                lemma_still(script, most, most.put("}"@), part);
            }
        },
        ExprKind::Access(_, base) => {
            lemma_pattern(script, page, base, Prec::Chain);
            lemma_then(script, page, id, base);
        },
        ExprKind::Select(_, base) => {
            lemma_pattern(script, page, base, Prec::Chain);
            lemma_then(script, page, id, base);
        },
        ExprKind::Fact(predicate, key) => {
            let name = print::predicate_name(script.schema, predicate);
            let from = page.put(name).put(" "@);
            lemma_put(script, page, name);
            lemma_put(script, page.put(name), " "@);
            lemma_onward(script, page, page.put(name), from);
            lemma_pattern(script, from, key, Prec::Application);
            lemma_onward(script, page, from, script.pattern(from, key, Prec::Application));
        },
        ExprKind::Disjunction(branches) => {
            lemma_branches(script, page, branches@, id.0 as nat, branches@.len());
            assert forall|part: NodeId| #[trigger]
                is_part(script.ast.kind(id), part) implies all_landed(
                script,
                script.bare(page, id),
                part,
            ) by {
                let i = choose|i: int| 0 <= i < branches@.len() && #[trigger] branches@[i] == part;
                assert(all_landed(script, script.bare(page, id), branches@[i]));
            }
        },
        ExprKind::Subquery(query) => {
            let open = page.put("("@);
            lemma_put(script, page, "("@);
            lemma_query(script, open, query, id.0 as nat);
            let most = script.query(open, query, id.0 as nat);
            lemma_onward(script, page, open, most);
            lemma_put(script, most, ")"@);
            lemma_onward(script, page, most, most.put(")"@));
            assert forall|part: NodeId| #[trigger]
                is_part(script.ast.kind(id), part) implies all_landed(
                script,
                script.bare(page, id),
                part,
            ) by {
                assert(in_query(query, part));
                assert(all_landed(script, most, part));
                lemma_still(script, most, most.put(")"@), part);
            }
        },
        _ => {
            lemma_word(script, page, id);
        },
    }
}

/// A node that no other is part of is one or two words.
proof fn lemma_word(script: Script, page: Page, id: NodeId)
    requires
        forall|part: NodeId| !#[trigger] is_part(script.ast.kind(id), part),
        script.ast.kind(id) !is Record,
        script.ast.kind(id) !is Disjunction,
    ensures
        onward(script, page, script.bare(page, id)),
{
    let kind = script.ast.kind(id);
    match kind {
        ExprKind::Prefix(symbol) => {
            let quoted = print::escaped(script.names.shown(symbol));
            lemma_put(script, page, quoted);
            lemma_put(script, page.put(quoted), ".."@);
            lemma_onward(script, page, page.put(quoted), page.put(quoted).put(".."@));
        },
        ExprKind::Wildcard => lemma_put(script, page, "_"@),
        ExprKind::Never => lemma_put(script, page, "never"@),
        ExprKind::Error => lemma_put(script, page, "!error"@),
        ExprKind::Var(symbol) => lemma_put(script, page, script.names.shown(symbol)),
        ExprKind::Lit(syntax::Literal::Int(value)) => lemma_put(
            script,
            page,
            crate::text::signed_decimal(value as int),
        ),
        ExprKind::Lit(syntax::Literal::Str(symbol)) => lemma_put(
            script,
            page,
            print::escaped(script.names.shown(symbol)),
        ),
        ExprKind::Access(_, base) => assert(is_part(kind, base)),
        ExprKind::Select(_, base) => assert(is_part(kind, base)),
        ExprKind::Fact(_, key) => assert(is_part(kind, key)),
        ExprKind::Subquery(query) => assert(is_part(kind, query.head)),
        _ => {},
    }
}

/// A step, behind what it is taken of.
proof fn lemma_then(script: Script, page: Page, id: NodeId, base: NodeId)
    requires
        base.0 < id.0,
        (script.ast.kind(id) matches ExprKind::Access(_, of) && of == base) || (script.ast.kind(
            id,
        ) matches ExprKind::Select(_, of) && of == base),
        onward(script, page, script.pattern(page, base, Prec::Chain)),
        all_landed(script, script.pattern(page, base, Prec::Chain), base),
    ensures
        onward(script, page, script.bare(page, id)),
        all_landed(script, script.bare(page, id), base),
{
    let based = script.base(page, base, id);
    let next = script.bare(page, id);
    let dotted = based.put("."@);
    lemma_put(script, based, "."@);
    lemma_put(script, based, ".value"@);
    match script.ast.kind(id) {
        ExprKind::Access(syntax::FieldRef::Key(name), _) => {
            lemma_put(script, dotted, script.names.shown(name));
            lemma_onward(script, based, dotted, next);
        },
        ExprKind::Select(alt, _) => {
            let named = dotted.put(script.names.shown(alt));
            lemma_put(script, dotted, script.names.shown(alt));
            lemma_put(script, named, "?"@);
            lemma_onward(script, based, dotted, named);
            lemma_onward(script, based, named, next);
        },
        _ => {},
    }
    lemma_onward(script, page, based, next);
    lemma_still(script, based, next, base);
}

proof fn lemma_fields(
    script: Script,
    page: Page,
    fields: Seq<(Symbol, NodeId)>,
    n: nat,
    k: nat,
)
    requires
        script.ast.wf(),
        n <= script.ast.tree().kinds().len(),
        page.spans.len() == script.ast.tree().kinds().len(),
        k <= fields.len(),
        forall|i: int| 0 <= i < fields.len() ==> (#[trigger] fields[i]).1.0 < n,
    ensures
        onward(script, page, script.fields(page, fields, n, k)),
        forall|i: int|
            0 <= i < k ==> all_landed(
                script,
                script.fields(page, fields, n, k),
                (#[trigger] fields[i]).1,
            ),
    decreases n, 0nat, k,
{
    if k > 0 {
        lemma_fields(script, page, fields, n, (k - 1) as nat);
        let before = script.fields(page, fields, n, (k - 1) as nat);
        lemma_put(script, before, ", "@);
        let from = if k > 1 {
            before.put(", "@)
        } else {
            before
        };
        if k == 1 {
            lemma_same(script, before);
        }
        let name = script.names.shown(fields[k - 1].0);
        let ready = from.put(name).put(" = "@);
        lemma_put(script, from, name);
        lemma_put(script, from.put(name), " = "@);
        lemma_onward(script, before, from, from.put(name));
        lemma_onward(script, before, from.put(name), ready);
        lemma_pattern(script, ready, fields[k - 1].1, Prec::Disjunction);
        let next = script.fields(page, fields, n, k);
        lemma_onward(script, before, ready, next);
        lemma_onward(script, page, before, next);
        assert forall|i: int| 0 <= i < k implies all_landed(
            script,
            next,
            (#[trigger] fields[i]).1,
        ) by {
            if i < k - 1 {
                lemma_still(script, before, next, fields[i].1);
            }
        }
    } else {
        lemma_same(script, page);
    }
}

proof fn lemma_same(script: Script, page: Page)
    ensures
        onward(script, page, page),
{
}

proof fn lemma_branches(script: Script, page: Page, branches: Seq<NodeId>, n: nat, k: nat)
    requires
        script.ast.wf(),
        n <= script.ast.tree().kinds().len(),
        page.spans.len() == script.ast.tree().kinds().len(),
        k <= branches.len(),
        forall|i: int| 0 <= i < branches.len() ==> (#[trigger] branches[i]).0 < n,
    ensures
        onward(script, page, script.branches(page, branches, n, k)),
        forall|i: int|
            0 <= i < k ==> all_landed(
                script,
                script.branches(page, branches, n, k),
                #[trigger] branches[i],
            ),
    decreases n, 0nat, k,
{
    if k > 0 {
        lemma_branches(script, page, branches, n, (k - 1) as nat);
        let before = script.branches(page, branches, n, (k - 1) as nat);
        lemma_put(script, before, " | "@);
        lemma_same(script, before);
        let from = if k > 1 {
            before.put(" | "@)
        } else {
            before
        };
        lemma_pattern(script, from, branches[k - 1], Prec::Application);
        let next = script.branches(page, branches, n, k);
        lemma_onward(script, before, from, next);
        lemma_onward(script, page, before, next);
        assert forall|i: int| 0 <= i < k implies all_landed(
            script,
            next,
            #[trigger] branches[i],
        ) by {
            if i < k - 1 {
                lemma_still(script, before, next, branches[i]);
            }
        }
    } else {
        lemma_same(script, page);
    }
}

proof fn lemma_query(script: Script, page: Page, query: Query, n: nat)
    requires
        script.ast.wf(),
        n <= script.ast.tree().kinds().len(),
        page.spans.len() == script.ast.tree().kinds().len(),
        syntax::query_below(query, n),
    ensures
        onward(script, page, script.query(page, query, n)),
        forall|part: NodeId| #[trigger]
            in_query(query, part) ==> all_landed(script, script.query(page, query, n), part),
    decreases n, 1nat, 0nat,
{
    lemma_pattern(script, page, query.head, Prec::Disjunction);
    let headed = script.pattern(page, query.head, Prec::Disjunction);
    let from = headed.put(" where "@);
    lemma_put(script, headed, " where "@);
    lemma_onward(script, page, headed, from);
    lemma_stmts(script, from, query.body@, n, query.body@.len());
    let next = script.query(page, query, n);
    lemma_onward(script, page, from, next);
    lemma_onward(script, headed, from, next);
    lemma_still(script, headed, next, query.head);
    assert forall|part: NodeId| #[trigger] in_query(query, part) implies all_landed(
        script,
        next,
        part,
    ) by {
        if part != query.head {
            let i = choose|i: int|
                0 <= i < query.body@.len() && in_stmt(#[trigger] query.body@[i], part);
            assert(in_stmt(query.body@[i], part));
        }
    }
}

proof fn lemma_stmts(script: Script, page: Page, body: Seq<QueryStmt>, n: nat, k: nat)
    requires
        script.ast.wf(),
        n <= script.ast.tree().kinds().len(),
        page.spans.len() == script.ast.tree().kinds().len(),
        k <= body.len(),
        forall|i: int| 0 <= i < body.len() ==> syntax::stmt_below(#[trigger] body[i], n),
    ensures
        onward(script, page, script.stmts(page, body, n, k)),
        forall|i: int, part: NodeId|
            0 <= i < k && #[trigger] in_stmt(body[i], part) ==> all_landed(
                script,
                script.stmts(page, body, n, k),
                part,
            ),
    decreases n, 0nat, k,
{
    if k > 0 {
        lemma_stmts(script, page, body, n, (k - 1) as nat);
        let before = script.stmts(page, body, n, (k - 1) as nat);
        lemma_put(script, before, "; "@);
        lemma_same(script, before);
        let from = if k > 1 {
            before.put("; "@)
        } else {
            before
        };
        lemma_stmt(script, from, body[k - 1], n);
        let next = script.stmts(page, body, n, k);
        lemma_onward(script, before, from, next);
        lemma_onward(script, page, before, next);
        assert forall|i: int, part: NodeId|
            0 <= i < k && #[trigger] in_stmt(body[i], part) implies all_landed(
            script,
            next,
            part,
        ) by {
            if i < k - 1 {
                lemma_still(script, before, next, part);
            }
        }
    } else {
        lemma_same(script, page);
    }
}

proof fn lemma_stmt(script: Script, from: Page, stmt: QueryStmt, n: nat)
    requires
        script.ast.wf(),
        n <= script.ast.tree().kinds().len(),
        from.spans.len() == script.ast.tree().kinds().len(),
        syntax::stmt_below(stmt, n),
    ensures
        onward(script, from, script.stmt(from, stmt, n)),
        forall|part: NodeId| #[trigger]
            in_stmt(stmt, part) ==> all_landed(script, script.stmt(from, stmt, n), part),
    decreases n, 0nat, 0nat,
{
    match stmt {
        QueryStmt::Implicit(id) => {
            lemma_pattern(script, from, id, Prec::Disjunction);
        },
        QueryStmt::Bind(lhs, rhs) => {
            lemma_pattern(script, from, lhs, Prec::Disjunction);
            let left = script.pattern(from, lhs, Prec::Disjunction);
            let ready = left.put(" = "@);
            lemma_put(script, left, " = "@);
            lemma_pattern(script, ready, rhs, Prec::Disjunction);
            let next = script.stmt(from, stmt, n);
            lemma_onward(script, left, ready, next);
            lemma_onward(script, from, left, next);
            lemma_still(script, left, next, lhs);
        },
        QueryStmt::Negation(id) => {
            let ready = from.put("!"@);
            lemma_put(script, from, "!"@);
            lemma_pattern(script, ready, id, Prec::Disjunction);
            lemma_onward(script, from, ready, script.stmt(from, stmt, n));
        },
    }
}

/// The span of every node of a query is where the node is printed: what stands there in the
/// text is what the node alone prints as, no more and no less. The text is one whose offsets a
/// span can hold.
pub proof fn law_a_span_holds_the_nodes_own_text(
    ast: Ast,
    schema: Schema,
    names: Names,
    id: NodeId,
)
    requires
        ast.wf(),
        stands(ast, ast.root(), id),
        print::page_of(ast, schema, names).bytes() <= u32::MAX,
    ensures
        landed(Script { ast, schema, names }, print::page_of(ast, schema, names), id),
{
    let n = ast.tree().kinds().len();
    let script = Script { ast, schema, names };
    let blank = Page {
        text: Seq::empty(),
        spans: Seq::new(n, |i: int| syntax::NodeSpan { start: 0, end: 0 }),
    };
    lemma_query(script, blank, ast.root(), n);
    let part = choose|part: NodeId| #[trigger] in_query(ast.root(), part) && holds(ast, part, id);
    assert(all_landed(script, print::page_of(ast, schema, names), part));
}

} // verus!
