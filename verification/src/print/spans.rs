//! Where nodes were printed: every span lies within the text.
use vstd::prelude::*;
use vstd::utf8::*;

use super::{Page, Prec, Script};
use crate::print;
use crate::schema::{Names, Schema, Symbol};
use crate::syntax::{Ast, ExprKind, FieldRef, Literal, NodeId, Query, QueryStmt};

verus! {

/// Every span ends where it begins or later, and within the text.
pub open spec fn within(page: Page) -> bool {
    forall|i: int|
        0 <= i < page.spans.len() ==> (#[trigger] page.spans[i]).start <= page.spans[i].end
            <= page.bytes()
}

/// What is printed after `page` leaves its spans within the text.
spec fn onward(page: Page, next: Page) -> bool {
    &&& page.bytes() <= next.bytes()
    &&& next.spans.len() == page.spans.len()
    &&& within(page) ==> within(next)
}

proof fn lemma_encode_more(a: Seq<char>, b: Seq<char>)
    ensures
        encode_utf8(a).len() <= encode_utf8(a + b).len(),
    decreases a.len(),
{
    if a.len() > 0 {
        lemma_encode_more(a.drop_first(), b);
        assert((a + b).drop_first() =~= a.drop_first() + b);
        assert((a + b)[0] == a[0]);
    }
}

proof fn lemma_put(page: Page, more: Seq<char>)
    ensures
        onward(page, page.put(more)),
{
    lemma_encode_more(page.text, more);
}

proof fn lemma_marked(page: Page, id: NodeId, start: nat)
    requires
        start <= page.bytes(),
        id.0 < page.spans.len(),
    ensures
        onward(page, page.marked(id, start)),
{
    let next = page.marked(id, start);
    if within(page) {
        assert forall|i: int| 0 <= i < next.spans.len() implies (#[trigger] next.spans[i]).start
            <= next.spans[i].end <= next.bytes() by {
            if i != id.0 as int {
                assert(next.spans[i] == page.spans[i]);
            }
        }
    }
}

proof fn lemma_query(script: Script, page: Page, query: Query, n: nat)
    requires
        n <= page.spans.len(),
    ensures
        onward(page, script.query(page, query, n)),
    decreases n, 1nat, 0nat,
{
    let headed = if query.head.0 < n {
        lemma_pattern(script, page, query.head, Prec::Disjunction);
        script.pattern(page, query.head, Prec::Disjunction)
    } else {
        page
    };
    lemma_put(headed, " where "@);
    lemma_stmts(script, headed.put(" where "@), query.body@, n, query.body@.len());
}

proof fn lemma_stmts(script: Script, page: Page, body: Seq<QueryStmt>, n: nat, k: nat)
    requires
        n <= page.spans.len(),
    ensures
        onward(page, script.stmts(page, body, n, k)),
    decreases n, 0nat, k,
{
    if k > 0 {
        lemma_stmts(script, page, body, n, (k - 1) as nat);
        let before = script.stmts(page, body, n, (k - 1) as nat);
        lemma_put(before, "; "@);
        let from = if k > 1 {
            before.put("; "@)
        } else {
            before
        };
        lemma_stmt(script, from, body[k - 1], n);
    }
}

proof fn lemma_stmt(script: Script, from: Page, stmt: QueryStmt, n: nat)
    requires
        n <= from.spans.len(),
    ensures
        onward(from, script.stmt(from, stmt, n)),
    decreases n, 0nat, 0nat,
{
    match stmt {
        QueryStmt::Implicit(id) => if id.0 < n {
            lemma_pattern(script, from, id, Prec::Disjunction);
        },
        QueryStmt::Bind(lhs, rhs) => if lhs.0 < n && rhs.0 < n {
            lemma_pattern(script, from, lhs, Prec::Disjunction);
            let left = script.pattern(from, lhs, Prec::Disjunction);
            lemma_put(left, " = "@);
            lemma_pattern(script, left.put(" = "@), rhs, Prec::Disjunction);
        },
        QueryStmt::Negation(id) => if id.0 < n {
            lemma_put(from, "!"@);
            lemma_pattern(script, from.put("!"@), id, Prec::Disjunction);
        },
    }
}

proof fn lemma_pattern(script: Script, page: Page, id: NodeId, permitted: Prec)
    requires
        id.0 < page.spans.len(),
    ensures
        onward(page, script.pattern(page, id, permitted)),
    decreases id.0, 3nat, 0nat,
{
    let open = page.put("("@);
    lemma_put(page, "("@);
    lemma_bare(script, open, id);
    lemma_bare(script, page, id);
    lemma_marked(script.bare(open, id), id, open.bytes());
    lemma_marked(script.bare(page, id), id, page.bytes());
    lemma_put(script.bare(open, id).marked(id, open.bytes()), ")"@);
}

proof fn lemma_bare(script: Script, page: Page, id: NodeId)
    requires
        id.0 < page.spans.len(),
    ensures
        onward(page, script.bare(page, id)),
    decreases id.0, 2nat, 0nat,
{
    match script.ast.kind(id) {
        ExprKind::Wildcard => lemma_put(page, "_"@),
        ExprKind::Never => lemma_put(page, "never"@),
        ExprKind::Error => lemma_put(page, "!error"@),
        ExprKind::Var(symbol) => lemma_put(page, script.names.shown(symbol)),
        ExprKind::Lit(Literal::Int(value)) => lemma_put(
            page,
            crate::text::signed_decimal(value as int),
        ),
        ExprKind::Lit(Literal::Str(symbol)) => lemma_put(
            page,
            print::escaped(script.names.shown(symbol)),
        ),
        ExprKind::Prefix(symbol) => {
            let quoted = print::escaped(script.names.shown(symbol));
            lemma_put(page, quoted);
            lemma_put(page.put(quoted), ".."@);
        },
        ExprKind::Record(fields) => {
            lemma_put(page, "{"@);
            let open = page.put("{"@);
            lemma_fields(script, open, fields@, id.0 as nat, fields@.len());
            lemma_put(script.fields(open, fields@, id.0 as nat, fields@.len()), "}"@);
        },
        ExprKind::Access(field, base) => {
            lemma_base(script, page, base, id);
            let based = script.base(page, base, id);
            match field {
                FieldRef::Key(name) => {
                    lemma_put(based, "."@);
                    lemma_put(based.put("."@), script.names.shown(name));
                },
                FieldRef::Value => lemma_put(based, ".value"@),
            }
        },
        ExprKind::Select(alt, base) => {
            lemma_base(script, page, base, id);
            let based = script.base(page, base, id);
            lemma_put(based, "."@);
            let dotted = based.put("."@);
            lemma_put(dotted, script.names.shown(alt));
            lemma_put(dotted.put(script.names.shown(alt)), "?"@);
        },
        ExprKind::Fact(predicate, key) => {
            let name = print::predicate_name(script.schema, predicate);
            lemma_put(page, name);
            lemma_put(page.put(name), " "@);
            if key.0 < id.0 {
                lemma_pattern(script, page.put(name).put(" "@), key, Prec::Application);
            }
        },
        ExprKind::Disjunction(branches) => lemma_branches(
            script,
            page,
            branches@,
            id.0 as nat,
            branches@.len(),
        ),
        ExprKind::Subquery(query) => {
            lemma_put(page, "("@);
            lemma_query(script, page.put("("@), query, id.0 as nat);
            lemma_put(script.query(page.put("("@), query, id.0 as nat), ")"@);
        },
    }
}

proof fn lemma_base(script: Script, page: Page, base: NodeId, id: NodeId)
    requires
        id.0 < page.spans.len(),
    ensures
        onward(page, script.base(page, base, id)),
    decreases id.0, 0nat, 0nat,
{
    if base.0 < id.0 {
        lemma_pattern(script, page, base, Prec::Chain);
    }
}

proof fn lemma_fields(
    script: Script,
    page: Page,
    fields: Seq<(Symbol, NodeId)>,
    n: nat,
    k: nat,
)
    requires
        n <= page.spans.len(),
    ensures
        onward(page, script.fields(page, fields, n, k)),
    decreases n, 0nat, k,
{
    if k > 0 {
        lemma_fields(script, page, fields, n, (k - 1) as nat);
        let before = script.fields(page, fields, n, (k - 1) as nat);
        lemma_put(before, ", "@);
        let from = if k > 1 {
            before.put(", "@)
        } else {
            before
        };
        let name = script.names.shown(fields[k - 1].0);
        lemma_put(from, name);
        lemma_put(from.put(name), " = "@);
        if fields[k - 1].1.0 < n {
            lemma_pattern(script, from.put(name).put(" = "@), fields[k - 1].1, Prec::Disjunction);
        }
    }
}

proof fn lemma_branches(script: Script, page: Page, branches: Seq<NodeId>, n: nat, k: nat)
    requires
        n <= page.spans.len(),
    ensures
        onward(page, script.branches(page, branches, n, k)),
    decreases n, 0nat, k,
{
    if k > 0 {
        lemma_branches(script, page, branches, n, (k - 1) as nat);
        let before = script.branches(page, branches, n, (k - 1) as nat);
        lemma_put(before, " | "@);
        let from = if k > 1 {
            before.put(" | "@)
        } else {
            before
        };
        if branches[k - 1].0 < n {
            lemma_pattern(script, from, branches[k - 1], Prec::Application);
        }
    }
}

/// The span of every node of a printed tree lies within the text.
pub proof fn law_spans_lie_within_the_text(ast: Ast, schema: Schema, names: Names)
    ensures
        within(print::page_of(ast, schema, names)),
{
    let n = ast.tree().kinds().len();
    let blank = Page {
        text: Seq::empty(),
        spans: Seq::new(n, |i: int| crate::syntax::NodeSpan { start: 0, end: 0 }),
    };
    lemma_query(Script { ast, schema, names }, blank, ast.root(), n);
}

} // verus!
