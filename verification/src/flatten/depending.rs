//! What the statements of a query depend on, and which queries are refused before an order is
//! chosen: said of the patterns themselves, in no order of walking them.
use vstd::prelude::*;

use super::admitting;
use super::collecting;
use super::collecting::{Claimed, Occurs};
use super::model;
use super::model::{Alt, Cx, St, Stmt};
use crate::reorder::StmtDeps;
use crate::schema::{NameKey, PredicateTy, Symbol};
use crate::syntax;
use crate::syntax::{Ast, ExprKind, FieldRef, NodeId, NodeSpan};

verus! {

// ---- occurrences ------------------------------------------------------------

/// Whether what a node reads is a variable, or the row that was given to a nested pattern: the
/// node itself, or what its steps are taken of.
pub open spec fn reads_from(
    ast: Ast,
    hoisted: Seq<(NodeId, Symbol)>,
    node: NodeId,
    var: Symbol,
) -> bool {
    exists|root: NodeId| #[trigger]
        admitting::steps_from(ast, node, root) && match ast.kind(root) {
            ExprKind::Var(symbol) => symbol == var,
            ExprKind::Fact(_, _) => model::hoisted_row(hoisted, root) == Some(var),
            _ => false,
        }
}

/// Whether a variable stands in a pattern of some type: where it can only be read, or where it
/// can be captured.
pub open spec fn stands_in(
    cx: Cx,
    hoisted: Seq<(NodeId, Symbol)>,
    claims: Claimed,
    node: NodeId,
    ty: PredicateTy,
    var: Symbol,
    read: bool,
) -> bool
    decreases node.0,
{
    match cx.ast.kind(node) {
        ExprKind::Var(symbol) => symbol == var && read == (claims.aliased.contains(var) || (
        ty is Fact && claims.rows.contains(var))),
        ExprKind::Record(fields) => ty matches PredicateTy::Record(tys) && exists|k: int|
            0 <= k < tys@.len() && (model::field_pattern(
                fields@,
                Symbol::Schema((#[trigger] tys@[k]).0),
            ) matches Some(piece) && piece.0 < node.0 && stands_in(
                cx,
                hoisted,
                claims,
                piece,
                tys@[k].1,
                var,
                read,
            )),
        ExprKind::Access(FieldRef::Value, _) => false,
        ExprKind::Access(FieldRef::Key(_), _) => read && reads_from(cx.ast, hoisted, node, var),
        ExprKind::Select(_, _) => read && reads_from(cx.ast, hoisted, node, var),
        ExprKind::Fact(_, _) => read && model::hoisted_row(hoisted, node) == Some(var),
        _ => false,
    }
}

/// Whether it stands in the key of an alternative.
pub open spec fn stands_in_key(
    cx: Cx,
    hoisted: Seq<(NodeId, Symbol)>,
    claims: Claimed,
    alt: Alt,
    var: Symbol,
    read: bool,
) -> bool {
    cx.schema.predicate(alt.predicate) matches Some(declared) && stands_in(
        cx,
        hoisted,
        claims,
        alt.key,
        declared.key,
        var,
        read,
    )
}

/// Whether a statement can bind a variable: as its row, in the keys of all its alternatives, or
/// as what a value is given to.
pub open spec fn can_bind(
    cx: Cx,
    hoisted: Seq<(NodeId, Symbol)>,
    claims: Claimed,
    stmt: Stmt,
    var: Symbol,
) -> bool {
    match stmt {
        Stmt::Scan(scan) => scan.row == Some(var) || (scan.alternatives@.len() > 0 && forall|
            i: int,
        |
            0 <= i < scan.alternatives@.len() ==> stands_in_key(
                cx,
                hoisted,
                claims,
                #[trigger] scan.alternatives@[i],
                var,
                false,
            )),
        Stmt::Alias(alias) => !collecting::is_compare(cx, alias, claims.capturable)
            && admitting::stands_bare(cx.ast, alias.pattern, var),
        _ => false,
    }
}

/// Whether a statement has to read a variable: in the key of any of its alternatives, for a
/// denial wherever it stands, or as the root of a value.
pub open spec fn has_to_read(
    cx: Cx,
    hoisted: Seq<(NodeId, Symbol)>,
    claims: Claimed,
    stmt: Stmt,
    var: Symbol,
) -> bool {
    match stmt {
        Stmt::Scan(scan) => exists|i: int|
            0 <= i < scan.alternatives@.len() && stands_in_key(
                cx,
                hoisted,
                claims,
                #[trigger] scan.alternatives@[i],
                var,
                true,
            ),
        Stmt::Negate(tested) => exists|i: int, read: bool|
            0 <= i < tested.alternatives@.len() && #[trigger] stands_in_key(
                cx,
                hoisted,
                claims,
                tested.alternatives@[i],
                var,
                read,
            ),
        Stmt::Alias(alias) => reads_from(cx.ast, hoisted, alias.value, var) || (
        collecting::is_compare(cx, alias, claims.capturable) && reads_from(
            cx.ast,
            hoisted,
            alias.pattern,
            var,
        )),
        Stmt::Constrain(constraint) => reads_from(cx.ast, hoisted, constraint.var, var),
    }
}

// ---- walking ----------------------------------------------------------------

proof fn lemma_push(vars: Seq<Symbol>, last: Symbol, var: Symbol)
    ensures
        vars.push(last).contains(var) == (vars.contains(var) || last == var),
{
    let all = vars.push(last);
    if vars.contains(var) {
        let i = choose|i: int| 0 <= i < vars.len() && vars[i] == var;
        assert(all[i] == var);
    }
    assert(all[vars.len() as int] == last);
    if all.contains(var) && last != var {
        let i = choose|i: int| 0 <= i < all.len() && all[i] == var;
        assert(vars[i] == var);
    }
}

proof fn lemma_both(a: Seq<Symbol>, b: Seq<Symbol>, var: Symbol)
    ensures
        (a + b).contains(var) == (a.contains(var) || b.contains(var)),
{
    admitting::lemma_either(a, b, var);
}

proof fn lemma_noted(occurs: Occurs, one: Symbol, var: Symbol)
    ensures
        occurs.capture(one).captures.contains(var) == (occurs.captures.contains(var) || one
            == var),
        occurs.capture(one).reads == occurs.reads,
        occurs.read(one).reads.contains(var) == (occurs.reads.contains(var) || one == var),
        occurs.read(one).captures == occurs.captures,
{
    lemma_push(occurs.captures, one, var);
    lemma_push(occurs.reads, one, var);
}

proof fn lemma_captured_all(occurs: Occurs, vars: Seq<Symbol>, k: nat, var: Symbol)
    requires
        k <= vars.len(),
    ensures
        occurs.capture_all(vars, k).captures.contains(var) == (occurs.captures.contains(var)
            || vars.take(k as int).contains(var)),
        occurs.capture_all(vars, k).reads == occurs.reads,
    decreases k,
{
    if k > 0 {
        lemma_captured_all(occurs, vars, (k - 1) as nat, var);
        lemma_noted(occurs.capture_all(vars, (k - 1) as nat), vars[k - 1], var);
        lemma_push(vars.take(k - 1), vars[k - 1], var);
        assert(vars.take(k as int) =~= vars.take(k - 1).push(vars[k - 1]));
    }
}

proof fn lemma_read_all(occurs: Occurs, vars: Seq<Symbol>, k: nat, var: Symbol)
    requires
        k <= vars.len(),
    ensures
        occurs.read_all(vars, k).reads.contains(var) == (occurs.reads.contains(var) || vars.take(
            k as int,
        ).contains(var)),
        occurs.read_all(vars, k).captures == occurs.captures,
    decreases k,
{
    if k > 0 {
        lemma_read_all(occurs, vars, (k - 1) as nat, var);
        lemma_noted(occurs.read_all(vars, (k - 1) as nat), vars[k - 1], var);
        lemma_push(vars.take(k - 1), vars[k - 1], var);
        assert(vars.take(k as int) =~= vars.take(k - 1).push(vars[k - 1]));
    }
}

proof fn lemma_root(cx: Cx, node: NodeId)
    ensures
        admitting::steps_from(cx.ast, node, model::chain_root(cx, node)),
    decreases node.0,
{
    match cx.ast.kind(node) {
        ExprKind::Access(_, base) => {
            if base.0 < node.0 {
                lemma_root(cx, base);
            }
        },
        ExprKind::Select(_, base) => {
            if base.0 < node.0 {
                lemma_root(cx, base);
            }
        },
        _ => {},
    }
}

proof fn lemma_only_root(cx: Cx, node: NodeId, root: NodeId)
    requires
        admitting::steps_from(cx.ast, node, root),
        cx.ast.kind(root) is Var || cx.ast.kind(root) is Fact,
    ensures
        root == model::chain_root(cx, node),
    decreases node.0,
{
    if node != root {
        match cx.ast.kind(node) {
            ExprKind::Access(_, base) => lemma_only_root(cx, base, root),
            ExprKind::Select(_, base) => lemma_only_root(cx, base, root),
            _ => {},
        }
    }
}

proof fn lemma_scan_read(cx: Cx, st: St, node: NodeId, occurs: Occurs, var: Symbol)
    ensures
        ({
            let after = collecting::scan_read(cx, st, node, occurs);
            &&& after.captures == occurs.captures
            &&& after.reads.contains(var) == (occurs.reads.contains(var) || reads_from(
                cx.ast,
                st.hoisted,
                node,
                var,
            ))
        }),
{
    let root = model::chain_root(cx, node);
    lemma_root(cx, node);
    if reads_from(cx.ast, st.hoisted, node, var) {
        let found = choose|root: NodeId| #[trigger]
            admitting::steps_from(cx.ast, node, root) && match cx.ast.kind(root) {
                ExprKind::Var(symbol) => symbol == var,
                ExprKind::Fact(_, _) => model::hoisted_row(st.hoisted, root) == Some(var),
                _ => false,
            };
        lemma_only_root(cx, node, found);
    }
    match cx.ast.kind(root) {
        ExprKind::Var(symbol) => lemma_noted(occurs, symbol, var),
        ExprKind::Fact(_, _) => {
            if let Some(row) = model::hoisted_row(st.hoisted, root) {
                lemma_noted(occurs, row, var);
            }
        },
        _ => {},
    }
}

/// What walking a pattern adds of one variable.
spec fn adds(
    cx: Cx,
    st: St,
    claims: Claimed,
    node: NodeId,
    ty: PredicateTy,
    before: Occurs,
    after: Occurs,
    var: Symbol,
) -> bool {
    &&& after.captures.contains(var) == (before.captures.contains(var) || stands_in(
        cx,
        st.hoisted,
        claims,
        node,
        ty,
        var,
        false,
    ))
    &&& after.reads.contains(var) == (before.reads.contains(var) || stands_in(
        cx,
        st.hoisted,
        claims,
        node,
        ty,
        var,
        true,
    ))
}

proof fn lemma_field(
    cx: Cx,
    st: St,
    node: NodeId,
    ty: PredicateTy,
    claims: Claimed,
    occurs: Occurs,
    var: Symbol,
)
    ensures
        ({
            let (s1, after) = collecting::scan_field(cx, st, node, ty, claims, occurs);
            &&& s1.hoisted == st.hoisted && s1.sealed == st.sealed
            &&& adds(cx, st, claims, node, ty, occurs, after, var)
        }),
    decreases node.0, 1nat, 0nat,
{
    match cx.ast.kind(node) {
        ExprKind::Var(symbol) => lemma_noted(occurs, symbol, var),
        ExprKind::Record(fields) => {
            if let PredicateTy::Record(tys) = ty {
                lemma_fields(cx, st, node, fields@, tys@, tys@.len(), claims, occurs, var);
            }
        },
        ExprKind::Access(FieldRef::Value, _) => {},
        ExprKind::Access(FieldRef::Key(_), _) => lemma_scan_read(cx, st, node, occurs, var),
        ExprKind::Select(_, _) => lemma_scan_read(cx, st, node, occurs, var),
        ExprKind::Fact(_, _) => {
            if let Some(row) = model::hoisted_row(st.hoisted, node) {
                lemma_noted(occurs, row, var);
            }
        },
        _ => {},
    }
}

/// Whether a variable stands in the field of a record that a type names.
spec fn at_field(
    cx: Cx,
    st: St,
    claims: Claimed,
    node: NodeId,
    fields: Seq<(Symbol, NodeId)>,
    field: (NameKey, PredicateTy),
    var: Symbol,
    read: bool,
) -> bool {
    model::field_pattern(fields, Symbol::Schema(field.0)) matches Some(piece) && piece.0 < node.0
        && stands_in(cx, st.hoisted, claims, piece, field.1, var, read)
}

proof fn lemma_fields(
    cx: Cx,
    st: St,
    node: NodeId,
    fields: Seq<(Symbol, NodeId)>,
    tys: Seq<(NameKey, PredicateTy)>,
    k: nat,
    claims: Claimed,
    occurs: Occurs,
    var: Symbol,
)
    requires
        k <= tys.len(),
    ensures
        ({
            let (s1, after) = collecting::scan_fields(
                cx,
                st,
                node,
                fields,
                tys,
                k,
                claims,
                occurs,
            );
            &&& s1.hoisted == st.hoisted && s1.sealed == st.sealed
            &&& after.captures.contains(var) == (occurs.captures.contains(var) || exists|i: int|
                0 <= i < k && at_field(
                    cx,
                    st,
                    claims,
                    node,
                    fields,
                    #[trigger] tys[i],
                    var,
                    false,
                ))
            &&& after.reads.contains(var) == (occurs.reads.contains(var) || exists|i: int|
                0 <= i < k && at_field(
                    cx,
                    st,
                    claims,
                    node,
                    fields,
                    #[trigger] tys[i],
                    var,
                    true,
                ))
        }),
    decreases node.0, 0nat, k,
{
    if k > 0 {
        let j = (k - 1) as nat;
        lemma_fields(cx, st, node, fields, tys, j, claims, occurs, var);
        let (s1, o1) = collecting::scan_fields(cx, st, node, fields, tys, j, claims, occurs);
        if let Some(piece) = model::field_pattern(fields, Symbol::Schema(tys[k - 1].0)) {
            if piece.0 < node.0 {
                lemma_field(cx, s1, piece, tys[k - 1].1, claims, o1, var);
            }
        }
        let last = tys[k - 1];
        assert(at_field(cx, st, claims, node, fields, last, var, false) ==> at_field(
            cx,
            st,
            claims,
            node,
            fields,
            tys[j as int],
            var,
            false,
        ));
        assert(at_field(cx, st, claims, node, fields, last, var, true) ==> at_field(
            cx,
            st,
            claims,
            node,
            fields,
            tys[j as int],
            var,
            true,
        ));
    }
}

proof fn lemma_key(cx: Cx, st: St, alt: Alt, claims: Claimed, occurs: Occurs, var: Symbol)
    ensures
        ({
            let (s1, after) = collecting::scan_key(cx, st, alt, claims, occurs);
            &&& s1.hoisted == st.hoisted && s1.sealed == st.sealed
            &&& after.captures.contains(var) == (occurs.captures.contains(var) || stands_in_key(
                cx,
                st.hoisted,
                claims,
                alt,
                var,
                false,
            ))
            &&& after.reads.contains(var) == (occurs.reads.contains(var) || stands_in_key(
                cx,
                st.hoisted,
                claims,
                alt,
                var,
                true,
            ))
        }),
{
    if let Some(declared) = cx.schema.predicate(alt.predicate) {
        lemma_field(cx, st, alt.key, declared.key, claims, occurs, var);
    }
}

proof fn lemma_branches(cx: Cx, st: St, claims: Claimed, alts: Seq<Alt>, k: nat, var: Symbol)
    requires
        k <= alts.len(),
    ensures
        ({
            let (s1, reads, captures) = collecting::scan_branches(cx, st, claims, alts, k);
            &&& s1.hoisted == st.hoisted && s1.sealed == st.sealed
            &&& captures.len() == k
            &&& forall|i: int|
                0 <= i < k ==> (#[trigger] captures[i]).contains(var) == stands_in_key(
                    cx,
                    st.hoisted,
                    claims,
                    alts[i],
                    var,
                    false,
                )
            &&& reads.contains(var) == exists|i: int|
                0 <= i < k && stands_in_key(
                    cx,
                    st.hoisted,
                    claims,
                    #[trigger] alts[i],
                    var,
                    true,
                )
        }),
    decreases k,
{
    if k > 0 {
        let j = (k - 1) as nat;
        lemma_branches(cx, st, claims, alts, j, var);
        let (s1, reads, captures) = collecting::scan_branches(cx, st, claims, alts, j);
        lemma_key(cx, s1, alts[k - 1], claims, Occurs::none(), var);
        let (s2, branch) = collecting::scan_key(cx, s1, alts[k - 1], claims, Occurs::none());
        lemma_both(reads, branch.reads, var);
        let all = captures.push(branch.captures);
        assert forall|i: int| 0 <= i < k implies (#[trigger] all[i]).contains(var)
            == stands_in_key(cx, st.hoisted, claims, alts[i], var, false) by {
            if i < j {
                assert(all[i] == captures[i]);
            }
        }
    }
}

proof fn lemma_common(occurs: Occurs, captures: Seq<Seq<Symbol>>, k: nat, var: Symbol)
    requires
        captures.len() > 0,
        k <= captures[0].len(),
    ensures
        ({
            let after = collecting::capture_common(occurs, captures, k);
            &&& after.reads == occurs.reads
            &&& after.captures.contains(var) == (occurs.captures.contains(var) || (
            captures[0].take(k as int).contains(var) && collecting::in_all(captures, var)))
        }),
    decreases k,
{
    if k > 0 {
        lemma_common(occurs, captures, (k - 1) as nat, var);
        let before = collecting::capture_common(occurs, captures, (k - 1) as nat);
        lemma_noted(before, captures[0][k - 1], var);
        lemma_push(captures[0].take(k - 1), captures[0][k - 1], var);
        assert(captures[0].take(k as int) =~= captures[0].take(k - 1).push(captures[0][k - 1]));
    }
}

proof fn lemma_alts(
    cx: Cx,
    st: St,
    claims: Claimed,
    alts: Seq<Alt>,
    k: nat,
    occurs: Occurs,
    var: Symbol,
)
    requires
        k <= alts.len(),
    ensures
        ({
            let (s1, after) = collecting::scan_alts(cx, st, claims, alts, k, occurs);
            &&& s1.hoisted == st.hoisted && s1.sealed == st.sealed
            &&& (after.captures.contains(var) || after.reads.contains(var)) == (
            occurs.captures.contains(var) || occurs.reads.contains(var) || exists|
                i: int,
                read: bool,
            |
                0 <= i < k && #[trigger] stands_in_key(
                    cx,
                    st.hoisted,
                    claims,
                    alts[i],
                    var,
                    read,
                ))
        }),
    decreases k,
{
    if k > 0 {
        let j = (k - 1) as nat;
        lemma_alts(cx, st, claims, alts, j, occurs, var);
        let (s1, o1) = collecting::scan_alts(cx, st, claims, alts, j, occurs);
        lemma_key(cx, s1, alts[k - 1], claims, o1, var);
        assert(stands_in_key(cx, st.hoisted, claims, alts[j as int], var, true)
            || !stands_in_key(cx, st.hoisted, claims, alts[j as int], var, true));
        assert(stands_in_key(cx, st.hoisted, claims, alts[j as int], var, false)
            || !stands_in_key(cx, st.hoisted, claims, alts[j as int], var, false));
    }
}

/// What a statement can bind and has to read is what its patterns say, all of them: a scan
/// binds what every alternative does and reads what any does, however many there are; a denial
/// reads everything in it.
pub proof fn law_what_a_statement_depends_on(
    cx: Cx,
    st: St,
    claims: Claimed,
    stmt: Stmt,
    var: Symbol,
)
    ensures
        ({
            let (after, occurs) = collecting::stmt_occurs(cx, st, claims, stmt);
            &&& after.hoisted == st.hoisted && after.sealed == st.sealed
            &&& occurs.captures.contains(var) == can_bind(cx, st.hoisted, claims, stmt, var)
            &&& occurs.reads.contains(var) == has_to_read(cx, st.hoisted, claims, stmt, var)
        }),
{
    let none = Occurs::none();
    match stmt {
        Stmt::Scan(scan) => {
            let alts = scan.alternatives@;
            lemma_branches(cx, st, claims, alts, alts.len(), var);
            let (after, reads, captures) = collecting::scan_branches(
                cx,
                st,
                claims,
                alts,
                alts.len(),
            );
            let own = match scan.row {
                Some(row) => none.capture(row),
                None => none,
            };
            if let Some(row) = scan.row {
                lemma_noted(none, row, var);
            }
            lemma_both(own.reads, reads, var);
            let with_reads = Occurs { reads: own.reads + reads, ..own };
            if captures.len() > 0 {
                lemma_common(with_reads, captures, captures[0].len(), var);
                assert(captures[0].take(captures[0].len() as int) =~= captures[0]);
                if collecting::in_all(captures, var) {
                    assert(captures[0].contains(var));
                    assert forall|i: int| 0 <= i < alts.len() implies stands_in_key(
                        cx,
                        st.hoisted,
                        claims,
                        #[trigger] alts[i],
                        var,
                        false,
                    ) by {
                        assert(captures[i].contains(var));
                    }
                } else {
                    let i = choose|i: int|
                        0 <= i < captures.len() && !(#[trigger] captures[i]).contains(var);
                    assert(!stands_in_key(cx, st.hoisted, claims, alts[i], var, false));
                }
            }
        },
        Stmt::Alias(alias) => {
            let vars = model::bare_variables(cx, alias.pattern);
            let compared = collecting::is_compare(cx, alias, claims.capturable);
            let left = if compared {
                collecting::scan_read(cx, st, alias.pattern, none)
            } else {
                none.capture_all(vars, vars.len())
            };
            lemma_scan_read(cx, st, alias.pattern, none, var);
            lemma_captured_all(none, vars, vars.len(), var);
            assert(vars.take(vars.len() as int) =~= vars);
            admitting::lemma_bare(cx, alias.pattern, var);
            lemma_scan_read(cx, st, alias.value, left, var);
        },
        Stmt::Negate(tested) => {
            let alts = tested.alternatives@;
            lemma_alts(cx, st, claims, alts, alts.len(), none, var);
            let (after, occurs) = collecting::scan_alts(cx, st, claims, alts, alts.len(), none);
            let bare = Occurs { captures: Seq::empty(), ..occurs };
            lemma_read_all(bare, occurs.captures, occurs.captures.len(), var);
            assert(occurs.captures.take(occurs.captures.len() as int) =~= occurs.captures);
        },
        Stmt::Constrain(constraint) => lemma_scan_read(cx, st, constraint.var, none, var),
    }
}

/// The dependencies of a query's statements are these, one for one.
pub proof fn law_what_the_statements_depend_on(
    cx: Cx,
    st: St,
    claims: Claimed,
    stmts: Seq<Stmt>,
    k: nat,
    i: int,
    var: Symbol,
)
    requires
        0 <= i < k <= stmts.len(),
        collecting::deps_of(cx, st, claims, stmts, k).0.sealed,
    ensures
        ({
            let (after, deps) = collecting::deps_of(cx, st, claims, stmts, k);
            &&& deps.len() == k
            &&& deps[i].captures@.contains(var) == can_bind(
                cx,
                st.hoisted,
                claims,
                stmts[i],
                var,
            )
            &&& deps[i].reads@.contains(var) == has_to_read(
                cx,
                st.hoisted,
                claims,
                stmts[i],
                var,
            )
            &&& deps[i].placement == stmts[i].placed()
        }),
    decreases k,
{
    let j = (k - 1) as nat;
    lemma_deps_kept(cx, st, claims, stmts, j);
    let (s1, before) = collecting::deps_of(cx, st, claims, stmts, j);
    let (s2, occurs) = collecting::stmt_occurs(cx, s1, claims, stmts[j as int]);
    law_what_a_statement_depends_on(cx, s1, claims, stmts[j as int], var);
    if i < j {
        law_what_the_statements_depend_on(cx, st, claims, stmts, j, i, var);
    }
}

proof fn lemma_deps_kept(cx: Cx, st: St, claims: Claimed, stmts: Seq<Stmt>, k: nat)
    requires
        k <= stmts.len(),
    ensures
        collecting::deps_of(cx, st, claims, stmts, k).0.hoisted == st.hoisted,
        collecting::deps_of(cx, st, claims, stmts, k).1.len() == k,
    decreases k,
{
    if k > 0 {
        let j = (k - 1) as nat;
        lemma_deps_kept(cx, st, claims, stmts, j);
        let (s1, before) = collecting::deps_of(cx, st, claims, stmts, j);
        law_what_a_statement_depends_on(cx, s1, claims, stmts[j as int], arbitrary());
    }
}

// ---- claims -----------------------------------------------------------------

/// The names a statement says what they are: its row, or what it gives a value to. Two
/// variables that keys can bind are compared, and neither is given anything.
pub open spec fn given(cx: Cx, capturable: Seq<Symbol>) -> spec_fn(Stmt) -> Seq<Symbol> {
    |stmt: Stmt|
        match stmt {
            Stmt::Scan(scan) => match scan.row {
                Some(row) => seq![row],
                None => Seq::empty(),
            },
            Stmt::Alias(alias) => if collecting::is_compare(cx, alias, capturable) {
                Seq::empty()
            } else {
                model::bare_variables(cx, alias.pattern)
            },
            _ => Seq::empty(),
        }
}

/// The names that are claimed are those of a list, and nothing was reported if and only if
/// none is there twice.
spec fn tells(st: St, after: St, claims: Claimed, names: Seq<Symbol>) -> bool {
    &&& forall|name: Symbol| #[trigger]
        names.contains(name) == (claims.rows.contains(name) || claims.aliased.contains(name))
    &&& names.no_duplicates() ==> after.reports == st.reports
    &&& !names.no_duplicates() ==> after.reports.len() > st.reports.len()
}

proof fn lemma_claim(
    st: St,
    s1: St,
    claims: Claimed,
    before: Seq<Symbol>,
    names: Seq<Symbol>,
    k: nat,
    span: NodeSpan,
    is_row: bool,
)
    requires
        k <= names.len(),
        tells(st, s1, claims, before),
    ensures
        ({
            let (after, more) = collecting::claim_names(s1, claims, names, k, span, is_row);
            &&& tells(st, after, more, before + names.take(k as int))
            &&& more.capturable == claims.capturable
        }),
    decreases k,
{
    if k > 0 {
        let j = (k - 1) as nat;
        lemma_claim(st, s1, claims, before, names, j, span, is_row);
        let (s2, c2) = collecting::claim_names(s1, claims, names, j, span, is_row);
        let (after, more) = collecting::claim_names(s1, claims, names, k, span, is_row);
        let name = names[k - 1];
        let less = before + names.take(j as int);
        let all = before + names.take(k as int);
        assert(all =~= less.push(name));
        assert forall|one: Symbol| #[trigger]
            all.contains(one) == (more.rows.contains(one) || more.aliased.contains(one)) by {
            lemma_push(less, name, one);
            lemma_push(c2.rows, name, one);
            lemma_push(c2.aliased, name, one);
            assert(less.contains(one) == (c2.rows.contains(one) || c2.aliased.contains(one)));
        }
        assert(less.contains(name) == (c2.rows.contains(name) || c2.aliased.contains(name)));
        lemma_no_duplicates(less, name);
    } else {
        assert(before + names.take(0) =~= before);
    }
}

proof fn lemma_no_duplicates(names: Seq<Symbol>, last: Symbol)
    ensures
        names.push(last).no_duplicates() == (names.no_duplicates() && !names.contains(last)),
{
    let all = names.push(last);
    if all.no_duplicates() {
        assert forall|i: int, j: int|
            0 <= i < names.len() && 0 <= j < names.len() && i != j implies names[i] != names[j] by {
            assert(all[i] != all[j]);
        }
        if names.contains(last) {
            let i = choose|i: int| 0 <= i < names.len() && names[i] == last;
            assert(all[i] != all[names.len() as int]);
        }
    }
    if names.no_duplicates() && !names.contains(last) {
        assert forall|i: int, j: int|
            0 <= i < all.len() && 0 <= j < all.len() && i != j implies all[i] != all[j] by {
            if i < names.len() && j < names.len() {
                assert(names[i] != names[j]);
            } else if i < names.len() {
                assert(names.contains(names[i]));
            } else {
                assert(names.contains(names[j]));
            }
        }
    }
}

proof fn lemma_claims(cx: Cx, st: St, stmts: Seq<Stmt>, k: nat)
    requires
        k <= stmts.len(),
    ensures
        ({
            let (after, claims) = collecting::claimed(cx, st, stmts, k);
            let capturable = collecting::capturable(cx, stmts, stmts.len());
            &&& claims.capturable == capturable
            &&& tells(
                st,
                after,
                claims,
                stmts.take(k as int).map_values(given(cx, capturable)).flatten_alt(),
            )
        }),
    decreases k,
{
    let capturable = collecting::capturable(cx, stmts, stmts.len());
    let lists = stmts.take(k as int).map_values(given(cx, capturable));
    if k > 0 {
        let j = (k - 1) as nat;
        lemma_claims(cx, st, stmts, j);
        let (s1, c1) = collecting::claimed(cx, st, stmts, j);
        let less = stmts.take(j as int).map_values(given(cx, capturable));
        assert(lists.drop_last() =~= less);
        let names = given(cx, capturable)(stmts[j as int]);
        assert(lists.last() == names);
        let before = less.flatten_alt();
        match stmts[j as int] {
            Stmt::Scan(scan) => {
                if let Some(row) = scan.row {
                    lemma_claim(st, s1, c1, before, seq![row], 1, scan.span, true);
                    assert(seq![row].take(1) =~= seq![row]);
                } else {
                    assert(before + Seq::<Symbol>::empty() =~= before);
                }
            },
            Stmt::Alias(alias) => {
                if collecting::is_compare(cx, alias, capturable) {
                    assert(before + Seq::<Symbol>::empty() =~= before);
                } else {
                    lemma_claim(st, s1, c1, before, names, names.len(), alias.span, false);
                    assert(names.take(names.len() as int) =~= names);
                }
            },
            _ => {
                assert(before + Seq::<Symbol>::empty() =~= before);
            },
        }
    } else {
        assert(lists.flatten_alt() =~= Seq::<Symbol>::empty());
        assert(st.reports =~= collecting::claimed(cx, st, stmts, 0).0.reports);
    }
}

/// A query is refused for a name that is said what it is twice, and for that alone: claiming
/// reports nothing if and only if no name is given twice.
pub proof fn law_a_name_is_given_once(cx: Cx, st: St, stmts: Seq<Stmt>)
    ensures
        ({
            let capturable = collecting::capturable(cx, stmts, stmts.len());
            collecting::claimed(cx, st, stmts, stmts.len()).0.reports == st.reports
                <==> stmts.map_values(given(cx, capturable)).flatten_alt().no_duplicates()
        }),
{
    lemma_claims(cx, st, stmts, stmts.len());
    assert(stmts.take(stmts.len() as int) =~= stmts);
}

// ---- denials ----------------------------------------------------------------

proof fn lemma_unbound(st: St, known: Seq<Symbol>, reads: Seq<Symbol>, k: nat, span: NodeSpan)
    requires
        k <= reads.len(),
    ensures
        ({
            let after = collecting::unbound_reads(st, known, reads, k, span);
            let good = forall|i: int| 0 <= i < k ==> known.contains(#[trigger] reads[i]);
            &&& good ==> after.reports == st.reports
            &&& !good ==> after.reports.len() > st.reports.len()
        }),
    decreases k,
{
    if k > 0 {
        lemma_unbound(st, known, reads, (k - 1) as nat, span);
        let less = forall|i: int| 0 <= i < k - 1 ==> known.contains(#[trigger] reads[i]);
        let good = forall|i: int| 0 <= i < k ==> known.contains(#[trigger] reads[i]);
        if less && known.contains(reads[k - 1]) {
            assert(good);
        } else if less {
            assert(!known.contains(reads[k - 1]));
            assert(!good);
        } else {
            let i = choose|i: int| 0 <= i < k - 1 && !known.contains(#[trigger] reads[i]);
            assert(!known.contains(reads[i]));
            assert(!good);
        }
    }
}

/// Whether everything a denial reads is among some variables.
pub open spec fn denies_known(known: Seq<Symbol>, stmt: Stmt, deps: StmtDeps) -> bool {
    stmt is Negate ==> forall|var: Symbol| deps.reads@.contains(var) ==> #[trigger] known.contains(
        var,
    )
}

proof fn lemma_denials(st: St, known: Seq<Symbol>, stmts: Seq<Stmt>, deps: Seq<StmtDeps>, k: nat)
    requires
        k <= stmts.len(),
    ensures
        ({
            let after = collecting::negated_wildcards(st, known, stmts, deps, k);
            let good = forall|i: int|
                0 <= i < k ==> denies_known(known, #[trigger] stmts[i], deps[i]);
            &&& good ==> after.reports == st.reports
            &&& !good ==> after.reports.len() > st.reports.len()
        }),
    decreases k,
{
    if k > 0 {
        let j = k - 1;
        lemma_denials(st, known, stmts, deps, (k - 1) as nat);
        let s1 = collecting::negated_wildcards(st, known, stmts, deps, (k - 1) as nat);
        let less = forall|i: int|
            0 <= i < k - 1 ==> denies_known(known, #[trigger] stmts[i], deps[i]);
        let good = forall|i: int| 0 <= i < k ==> denies_known(known, #[trigger] stmts[i], deps[i]);
        if let Stmt::Negate(tested) = stmts[j] {
            let reads = deps[j].reads@;
            lemma_unbound(s1, known, reads, reads.len(), tested.span);
            let all = forall|i: int| 0 <= i < reads.len() ==> known.contains(#[trigger] reads[i]);
            if all {
                assert forall|var: Symbol| reads.contains(var) implies #[trigger] known.contains(
                    var,
                ) by {
                    let i = choose|i: int| 0 <= i < reads.len() && reads[i] == var;
                    assert(known.contains(reads[i]));
                }
            } else {
                let i = choose|i: int|
                    0 <= i < reads.len() && !known.contains(#[trigger] reads[i]);
                assert(reads.contains(reads[i]));
            }
        }
        if less && denies_known(known, stmts[j], deps[j]) {
            assert(good);
        } else if less {
            assert(!good);
        } else {
            let i = choose|i: int|
                0 <= i < k - 1 && !denies_known(known, #[trigger] stmts[i], deps[i]);
            assert(!denies_known(known, stmts[i], deps[i]));
            assert(!good);
        }
    }
}

/// A denial is refused for a variable that nothing binds, and for that alone.
pub proof fn law_a_denial_reads_what_is_bound(
    st: St,
    known: Seq<Symbol>,
    stmts: Seq<Stmt>,
    deps: Seq<StmtDeps>,
)
    ensures
        collecting::negated_wildcards(st, known, stmts, deps, stmts.len()).reports == st.reports
            <==> (forall|i: int|
            0 <= i < stmts.len() ==> denies_known(known, #[trigger] stmts[i], deps[i])),
{
    lemma_denials(st, known, stmts, deps, stmts.len());
}

// ---- the head ---------------------------------------------------------------

/// Whether a head can be shown: a literal, a place, or a record of such.
pub open spec fn can_show(ast: Ast, node: NodeId) -> bool
    decreases node.0,
{
    match ast.kind(node) {
        ExprKind::Lit(_) => true,
        ExprKind::Record(fields) => forall|i: int|
            0 <= i < fields@.len() ==> (#[trigger] fields@[i]).1.0 < node.0 && can_show(
                ast,
                fields@[i].1,
            ),
        _ => admitting::is_a_place(ast, node),
    }
}

/// Whether a head shows something of a variable.
pub open spec fn shows(
    ast: Ast,
    hoisted: Seq<(NodeId, Symbol)>,
    node: NodeId,
    var: Symbol,
) -> bool
    decreases node.0,
{
    match ast.kind(node) {
        ExprKind::Record(fields) => exists|i: int|
            0 <= i < fields@.len() && (#[trigger] fields@[i]).1.0 < node.0 && shows(
                ast,
                hoisted,
                fields@[i].1,
                var,
            ),
        _ => reads_from(ast, hoisted, node, var),
    }
}

proof fn lemma_head(cx: Cx, st: St, node: NodeId, occurs: Occurs, var: Symbol)
    requires
        cx.ast.wf(),
        cx.ast.has(node),
    ensures
        ({
            let (after, more) = collecting::scan_head(cx, st, node, occurs);
            &&& after.hoisted == st.hoisted
            &&& can_show(cx.ast, node) ==> after.reports == st.reports
            &&& !can_show(cx.ast, node) ==> after.reports.len() > st.reports.len()
            &&& can_show(cx.ast, node) ==> more.reads.contains(var) == (occurs.reads.contains(var)
                || shows(cx.ast, st.hoisted, node, var))
        }),
    decreases node.0, 1nat, 0nat,
{
    assert(syntax::children_below(cx.ast.kind(node), node.0 as nat));
    admitting::lemma_place(cx, node);
    lemma_root(cx, node);
    match cx.ast.kind(node) {
        ExprKind::Lit(_) => {
            assert(forall|root: NodeId| #[trigger]
                admitting::steps_from(cx.ast, node, root) ==> root == node);
        },
        ExprKind::Record(fields) => {
            lemma_head_fields(cx, st, node, fields@, fields@.len(), occurs, var);
        },
        ExprKind::Var(_) | ExprKind::Fact(_, _) | ExprKind::Access(_, _) | ExprKind::Select(
            _,
            _,
        ) => {
            lemma_scan_read(cx, st, node, occurs, var);
            let root = model::chain_root(cx, node);
            if admitting::is_a_place(cx.ast, node) {
                let found = choose|root: NodeId| #[trigger]
                    admitting::steps_from(cx.ast, node, root) && (cx.ast.kind(root) is Var
                        || cx.ast.kind(root) is Fact);
                lemma_only_root(cx, node, found);
            }
        },
        _ => {
            assert(forall|root: NodeId| #[trigger]
                admitting::steps_from(cx.ast, node, root) ==> root == node);
        },
    }
}

proof fn lemma_head_fields(
    cx: Cx,
    st: St,
    node: NodeId,
    fields: Seq<(Symbol, NodeId)>,
    k: nat,
    occurs: Occurs,
    var: Symbol,
)
    requires
        cx.ast.wf(),
        cx.ast.has(node),
        k <= fields.len(),
        forall|i: int| 0 <= i < fields.len() ==> (#[trigger] fields[i]).1.0 < node.0,
    ensures
        ({
            let (after, more) = collecting::scan_head_fields(cx, st, node, fields, k, occurs);
            let good = forall|i: int|
                0 <= i < k ==> can_show(cx.ast, (#[trigger] fields[i]).1);
            &&& after.hoisted == st.hoisted
            &&& good ==> after.reports == st.reports
            &&& !good ==> after.reports.len() > st.reports.len()
            &&& good ==> more.reads.contains(var) == (occurs.reads.contains(var) || exists|i: int|
                0 <= i < k && shows(cx.ast, st.hoisted, (#[trigger] fields[i]).1, var))
        }),
    decreases node.0, 0nat, k,
{
    if k > 0 {
        let j = (k - 1) as nat;
        lemma_head_fields(cx, st, node, fields, j, occurs, var);
        let (s1, o1) = collecting::scan_head_fields(cx, st, node, fields, j, occurs);
        lemma_head(cx, s1, fields[k - 1].1, o1, var);
        let less = forall|i: int| 0 <= i < j ==> can_show(cx.ast, (#[trigger] fields[i]).1);
        let good = forall|i: int| 0 <= i < k ==> can_show(cx.ast, (#[trigger] fields[i]).1);
        if less && can_show(cx.ast, fields[k - 1].1) {
            assert(good);
        } else if less {
            assert(!good);
        } else {
            let i = choose|i: int| 0 <= i < j && !can_show(cx.ast, (#[trigger] fields[i]).1);
            assert(!can_show(cx.ast, fields[i].1));
            assert(!good);
        }
    }
}

/// A head is refused for what cannot be shown, and for that alone; and what it has to read is
/// what it shows, every field of it.
pub proof fn law_a_head_is_what_can_be_shown(cx: Cx, st: St, node: NodeId, var: Symbol)
    requires
        cx.ast.wf(),
        cx.ast.has(node),
    ensures
        ({
            let (after, occurs) = collecting::scan_head(cx, st, node, Occurs::none());
            &&& after.reports == st.reports <==> can_show(cx.ast, node)
            &&& can_show(cx.ast, node) ==> occurs.reads.contains(var) == shows(
                cx.ast,
                st.hoisted,
                node,
                var,
            )
        }),
{
    lemma_head(cx, st, node, Occurs::none(), var);
}

} // verus!
