//! Collecting a query's statements, before any order is chosen.
use vstd::prelude::*;

use super::collecting;
use super::collecting::{Claimed, Gathered, Occurs};
use super::model;
use super::model::{
    Alias, Alt, Constraint, Cx, Gen, Slot, St, Stmt, HOISTED, SAY_ALREADY, SAY_ALREADY_IS,
    SAY_BRANCH, SAY_NEGATED_INSIDE, SAY_NEGATED_NEST, SAY_NEGATED_SUBQUERY, SAY_NOTHING_BINDS,
    SAY_NOT_PROJECTABLE, SAY_NO_GENERATOR, SAY_SHADOWS, SAY_SHADOWS_OUTER, SAY_VALUE_BIND,
    SAY_VALUE_MATCH_ROW, SAY_WILDCARD_MEANT,
};
use super::state;
use super::state::{find_pattern, Flattener};
use crate::boxed::seal;
use crate::diag::Code;
use crate::reorder::{contains, extend, Deps, Placement, StmtDeps};
use crate::schema::{PredicateTy, Symbol};
use crate::syntax;
use crate::syntax::{Ast, ExprKind, FieldRef, NodeId, NodeSpan, QueryStmt};
use crate::text::{around, push_decimal};

verus! {

/// What flatten works out before an order is chosen.
pub struct Collected {
    pub stmts: Vec<Stmt>,
    pub deps: Deps,
    /// The head's variables: the last thing the safety check has to account for.
    pub head_reads: Vec<Symbol>,
}

impl View for Collected {
    type V = Gathered;

    open spec fn view(&self) -> Gathered {
        Gathered {
            stmts: self.stmts@,
            deps: self.deps.stmts(),
            head_reads: self.head_reads@,
        }
    }
}

/// The variables some statement has already claimed: said what they are, rather than
/// offering to bind them. Every other occurrence of a claimed variable is a read.
pub struct Claims {
    /// Variables bound to a whole row.
    pub rows: Vec<Symbol>,
    /// Variables an alias names.
    pub aliased: Vec<Symbol>,
    /// Variables some fact pattern's key can capture.
    pub capturable: Vec<Symbol>,
}

impl View for Claims {
    type V = Claimed;

    open spec fn view(&self) -> Claimed {
        Claimed { rows: self.rows@, aliased: self.aliased@, capturable: self.capturable@ }
    }
}

/// One statement's variable occurrences, gathered before any order is chosen.
pub struct Occurrences {
    pub captures: Vec<Symbol>,
    pub reads: Vec<Symbol>,
}

impl View for Occurrences {
    type V = Occurs;

    open spec fn view(&self) -> Occurs {
        Occurs { captures: self.captures@, reads: self.reads@ }
    }
}

impl Occurrences {
    pub fn new() -> (occurs: Self)
        ensures
            occurs@ == Occurs::none(),
    {
        Occurrences { captures: Vec::new(), reads: Vec::new() }
    }

    /// Deduplicated, so a variable named twice appears once in the graph.
    pub fn capture(&mut self, var: Symbol)
        ensures
            final(self)@ == old(self)@.capture(var),
    {
        if !contains(&self.captures, var) {
            self.captures.push(var);
        }
    }

    pub fn read(&mut self, var: Symbol)
        ensures
            final(self)@ == old(self)@.read(var),
    {
        if !contains(&self.reads, var) {
            self.reads.push(var);
        }
    }
}

/// Everything a statement names is in the tree.
pub open spec fn stmt_ok(cx: Cx, stmt: Stmt) -> bool {
    match stmt {
        Stmt::Scan(scan) => alts_ok(cx, scan.alternatives@),
        Stmt::Negate(tested) => alts_ok(cx, tested.alternatives@),
        Stmt::Alias(alias) => cx.ast.has(alias.pattern) && cx.ast.has(alias.value),
        Stmt::Constrain(constraint) => cx.ast.has(constraint.var),
    }
}

pub open spec fn alts_ok(cx: Cx, alts: Seq<Alt>) -> bool {
    forall|i: int| 0 <= i < alts.len() ==> cx.ast.has((#[trigger] alts[i]).key)
}

pub open spec fn stmts_ok(cx: Cx, stmts: Seq<Stmt>) -> bool {
    forall|i: int| 0 <= i < stmts.len() ==> stmt_ok(cx, #[trigger] stmts[i])
}

proof fn lemma_children(cx: Cx, node: NodeId)
    requires
        cx.ast.wf(),
        cx.ast.has(node),
    ensures
        syntax::children_below(cx.ast.kind(node), node.0 as nat),
{
    assert(syntax::children_below(cx.ast.tree().kinds()[node.0 as int], node.0 as nat));
}

impl<'a> Flattener<'a> {
    // ---- shapes -----------------------------------------------------------------

    /// Every bare variable of a pattern, at any depth, appended to `out`: what a key
    /// could capture, and what a pattern being bound claims.
    pub fn bare_variables(&self, node: NodeId, out: &mut Vec<Symbol>)
        requires
            self.cx().ast.wf(),
            self.cx().ast.has(node),
        ensures
            final(out)@ == old(out)@ + model::bare_variables(self.cx(), node),
        decreases node.0,
    {
        match self.ast.store().kind(node) {
            ExprKind::Var(symbol) => {
                out.push(*symbol);
                proof {
                    assert(out@ =~= old(out)@ + seq![*symbol]);
                }
            },
            ExprKind::Record(fields) => {
                let mut k: usize = 0;
                proof {
                    assert(out@ + Seq::<Symbol>::empty() =~= out@);
                }
                while k < fields.len()
                    invariant
                        self.cx().ast.wf(),
                        self.cx().ast.has(node),
                        self.cx().ast.kind(node) == ExprKind::Record(*fields),
                        k <= fields@.len(),
                        out@ == old(out)@ + model::bare_variables_of(
                            self.cx(),
                            node,
                            fields@,
                            k as nat,
                        ),
                    decreases fields@.len() - k,
                {
                    proof {
                        state::lemma_child(self.cx(), node, *fields, k as int);
                    }
                    let ghost before = out@;
                    self.bare_variables(fields[k].1, out);
                    k += 1;
                    proof {
                        assert(out@ =~= old(out)@ + model::bare_variables_of(
                            self.cx(),
                            node,
                            fields@,
                            k as nat,
                        ));
                    }
                }
            },
            _ => {
                proof {
                    assert(out@ + Seq::<Symbol>::empty() =~= out@);
                }
            },
        }
    }

    /// The pattern an access chain reads from.
    pub fn chain_root(&self, node: NodeId) -> (root: NodeId)
        requires
            self.cx().ast.wf(),
            self.cx().ast.has(node),
        ensures
            root == model::chain_root(self.cx(), node),
            self.cx().ast.has(root),
        decreases node.0,
    {
        proof {
            lemma_children(self.cx(), node);
        }
        match self.ast.store().kind(node) {
            ExprKind::Access(_, base) => self.chain_root(*base),
            ExprKind::Select(_, base) => self.chain_root(*base),
            _ => node,
        }
    }

    /// Whether a node denotes a place: something a name can be another name for,
    /// rather than a value that would have to be computed.
    pub fn names_a_location(&self, node: NodeId) -> (yes: bool)
        requires
            self.cx().ast.wf(),
            self.cx().ast.has(node),
        ensures
            yes == model::names_a_location(self.cx(), node),
        decreases node.0,
    {
        proof {
            lemma_children(self.cx(), node);
        }
        match self.ast.store().kind(node) {
            ExprKind::Var(_) => true,
            ExprKind::Fact(_, _) => true,
            ExprKind::Access(_, base) => self.names_a_location(*base),
            ExprKind::Select(_, base) => self.names_a_location(*base),
            _ => false,
        }
    }

    /// Whether a pattern has a fact pattern inside it.
    pub fn nests_a_generator(&self, node: NodeId) -> (yes: bool)
        requires
            self.cx().ast.wf(),
            self.cx().ast.has(node),
        ensures
            yes == model::nests_a_generator(self.cx(), node),
        decreases node.0,
    {
        proof {
            lemma_children(self.cx(), node);
        }
        match self.ast.store().kind(node) {
            ExprKind::Fact(_, _) => true,
            ExprKind::Record(fields) => {
                let mut k: usize = 0;
                while k < fields.len()
                    invariant
                        self.cx().ast.wf(),
                        self.cx().ast.has(node),
                        self.cx().ast.kind(node) == ExprKind::Record(*fields),
                        k <= fields@.len(),
                        forall|i: int|
                            0 <= i < k ==> !model::nests_a_generator(
                                self.cx(),
                                (#[trigger] fields@[i]).1,
                            ),
                    decreases fields@.len() - k,
                {
                    proof {
                        state::lemma_child(self.cx(), node, *fields, k as int);
                    }
                    if self.nests_a_generator(fields[k].1) {
                        proof {
                            assert(fields@[k as int].1.0 < node.0);
                        }
                        return true;
                    }
                    k += 1;
                }
                false
            },
            ExprKind::Access(_, base) => self.nests_a_generator(*base),
            ExprKind::Select(_, base) => self.nests_a_generator(*base),
            _ => false,
        }
    }

    /// Whether a node is a variable among `vars`.
    fn is_one_of(&self, node: NodeId, vars: &Vec<Symbol>) -> (yes: bool)
        requires
            self.cx().ast.has(node),
        ensures
            yes == collecting::is_one_of(self.cx(), node, vars@),
    {
        match self.ast.store().kind(node) {
            ExprKind::Var(symbol) => contains(vars, *symbol),
            _ => false,
        }
    }

    // ---- generators -------------------------------------------------------------

    /// One statement as a generator, or a report that it is not one. A disjunction is
    /// one level with one alternative per branch; a `never` branch is dropped.
    pub fn generator(&mut self, node: NodeId, row: Option<Symbol>) -> (found: Option<Gen>)
        requires
            old(self).ok(),
            old(self).cx().ast.has(node),
        ensures
            (final(self).st(), found) == collecting::generator(
                old(self).cx(),
                old(self).st(),
                node,
                row,
            ),
            final(self).cx() == old(self).cx(),
            final(self).ok(),
            final(self).st().names == old(self).st().names,
            found matches Some(scan) ==> alts_ok(final(self).cx(), scan.alternatives@)
                && collecting::alts_weight(
                final(self).cx(),
                scan.alternatives@,
                scan.alternatives@.len(),
            ) <= collecting::weight(final(self).cx(), node),
    {
        proof {
            lemma_children(self.cx(), node);
        }
        let ast: &'a Ast = self.ast;
        let span: NodeSpan = ast.store().span(node);
        let mut alternatives: Vec<Alt> = Vec::new();
        match ast.store().kind(node) {
            ExprKind::Fact(predicate, key) => {
                alternatives.push(Alt { predicate: *predicate, key: *key });
                proof {
                    assert(alternatives@ =~= seq![Alt { predicate: *predicate, key: *key }]);
                    reveal_with_fuel(collecting::alts_weight, 2);
                }
            },
            ExprKind::Never => {},
            ExprKind::Disjunction(branches) => {
                let mut k: usize = 0;
                while k < branches.len()
                    invariant
                        self.ok(),
                        self.cx() == old(self).cx(),
                        ast == self.ast,
                        ast.has(node),
                        ast.kind(node) == ExprKind::Disjunction(*branches),
                        syntax::children_below(ast.kind(node), node.0 as nat),
                        k <= branches@.len(),
                        (self.st(), Some(alternatives@)) == collecting::branches_of(
                            old(self).cx(),
                            old(self).st(),
                            branches@,
                            k as nat,
                        ),
                        self.st() == old(self).st(),
                        alts_ok(self.cx(), alternatives@),
                        collecting::alts_weight(self.cx(), alternatives@, alternatives@.len())
                            <= collecting::weight_nodes(self.cx(), node, branches@, k as nat),
                    decreases branches@.len() - k,
                {
                    let branch: NodeId = branches[k];
                    proof {
                        lemma_children(self.cx(), branch);
                    }
                    match ast.store().kind(branch) {
                        ExprKind::Fact(predicate, key) => {
                            let ghost before = alternatives@;
                            alternatives.push(Alt { predicate: *predicate, key: *key });
                            proof {
                                lemma_alts_weight_push(self.cx(), before, alternatives@.last());
                                assert(alternatives@ =~= before.push(alternatives@.last()));
                                assert(collecting::weight(self.cx(), branch)
                                    == 1 + collecting::weight(self.cx(), *key));
                            }
                        },
                        ExprKind::Never => {},
                        _ => {
                            self.report(branch, Code::NyiDisjunction, SAY_BRANCH);
                            proof {
                                lemma_branches_fail(
                                    old(self).cx(),
                                    old(self).st(),
                                    branches@,
                                    (k + 1) as nat,
                                    branches@.len(),
                                );
                            }
                            return None;
                        },
                    }
                    k += 1;
                }
            },
            _ => {
                self.report(node, Code::RejectNotAGenerator, SAY_NO_GENERATOR);
                return None;
            },
        }
        let ghost alts = alternatives@;
        let sealed: Box<[Alt]> = seal(alternatives);
        assert(collecting::alts_sealed(alts));
        Some(Gen { alternatives: sealed, row, span, placement: Placement::Written })
    }

    /// The generator a negation tests for emptiness, or `None` with the reason
    /// reported. Hoisting a nested fact pattern out of a negation would change what the
    /// query means, so one is refused.
    pub fn negated(&mut self, node: NodeId) -> (found: Option<Gen>)
        requires
            old(self).ok(),
            old(self).cx().ast.has(node),
        ensures
            (final(self).st(), found) == collecting::negated(old(self).cx(), old(self).st(), node),
            final(self).cx() == old(self).cx(),
            final(self).ok(),
            final(self).st().names == old(self).st().names,
            found matches Some(tested) ==> alts_ok(final(self).cx(), tested.alternatives@),
    {
        if let ExprKind::Subquery(_) = self.ast.store().kind(node) {
            self.report(node, Code::NyiNegation, SAY_NEGATED_SUBQUERY);
            return None;
        }
        let Some(tested) = self.generator(node, None) else {
            return None;
        };
        let mut i: usize = 0;
        while i < tested.alternatives.len()
            invariant
                self.ok(),
                self.cx() == old(self).cx(),
                i <= tested.alternatives@.len(),
                alts_ok(self.cx(), tested.alternatives@),
                (self.st(), Some(tested)) == collecting::generator(
                    old(self).cx(),
                    old(self).st(),
                    node,
                    None,
                ),
                self.cx().ast.kind(node) !is Subquery,
                collecting::nesting_alt(self.cx(), tested.alternatives@, 0)
                    == collecting::nesting_alt(self.cx(), tested.alternatives@, i as nat),
                self.st().names == old(self).st().names,
            decreases tested.alternatives@.len() - i,
        {
            let key: NodeId = tested.alternatives[i].key;
            if self.nests_a_generator(key) {
                self.report(key, Code::NyiNegation, SAY_NEGATED_NEST);
                return None;
            }
            i += 1;
        }
        Some(tested)
    }

    // ---- hoisting ---------------------------------------------------------------

    /// Hoist every fact pattern inside `node` into a generator of its own. A fact
    /// pattern denotes the facts matching it, so it is a generator wherever it is
    /// written.
    pub fn hoist_within(&mut self, node: NodeId, stmts: &mut Vec<Stmt>)
        requires
            old(self).ok(),
            old(self).cx().ast.has(node),
            stmts_ok(old(self).cx(), old(stmts)@),
            old(self).st().names.has_room(collecting::weight(old(self).cx(), node)),
        ensures
            (final(self).st(), final(stmts)@) == collecting::hoist_within(
                old(self).cx(),
                old(self).st(),
                old(stmts)@,
                node,
            ),
            final(self).cx() == old(self).cx(),
            final(self).ok(),
            stmts_ok(final(self).cx(), final(stmts)@),
            final(self).st().names.local.len() + 1 <= old(self).st().names.local.len()
                + collecting::weight(old(self).cx(), node),
        decreases node.0, 1nat,
    {
        proof {
            lemma_children(self.cx(), node);
        }
        let ast: &'a Ast = self.ast;
        match ast.store().kind(node) {
            ExprKind::Record(fields) => {
                let mut k: usize = 0;
                while k < fields.len()
                    invariant
                        self.ok(),
                        self.cx() == old(self).cx(),
                        ast == self.ast,
                        ast.has(node),
                        ast.kind(node) == ExprKind::Record(*fields),
                        stmts_ok(self.cx(), stmts@),
                        k <= fields@.len(),
                        (self.st(), stmts@) == collecting::hoist_fields(
                            old(self).cx(),
                            old(self).st(),
                            old(stmts)@,
                            node,
                            fields@,
                            k as nat,
                        ),
                        self.st().names.local.len() <= old(self).st().names.local.len()
                            + collecting::weight_fields(self.cx(), node, fields@, k as nat),
                        old(self).st().names.has_room(
                            collecting::weight_fields(self.cx(), node, fields@, fields@.len()),
                        ),
                    decreases fields@.len() - k,
                {
                    proof {
                        state::lemma_child(self.cx(), node, *fields, k as int);
                        lemma_weight_fields(
                            self.cx(),
                            node,
                            fields@,
                            (k + 1) as nat,
                            fields@.len(),
                        );
                    }
                    self.hoist_node(fields[k].1, stmts);
                    k += 1;
                }
            },
            ExprKind::Access(_, base) => {
                self.hoist_node(*base, stmts);
            },
            ExprKind::Select(_, base) => {
                self.hoist_node(*base, stmts);
            },
            _ => {},
        }
    }

    /// [`hoist_within`](Self::hoist_within), and `node` itself if it is a generator.
    pub fn hoist_node(&mut self, node: NodeId, stmts: &mut Vec<Stmt>)
        requires
            old(self).ok(),
            old(self).cx().ast.has(node),
            stmts_ok(old(self).cx(), old(stmts)@),
            old(self).st().names.has_room(collecting::weight(old(self).cx(), node)),
        ensures
            (final(self).st(), final(stmts)@) == collecting::hoist_node(
                old(self).cx(),
                old(self).st(),
                old(stmts)@,
                node,
            ),
            final(self).cx() == old(self).cx(),
            final(self).ok(),
            stmts_ok(final(self).cx(), final(stmts)@),
            final(self).st().names.local.len() <= old(self).st().names.local.len()
                + collecting::weight(old(self).cx(), node),
        decreases node.0, 2nat,
    {
        proof {
            lemma_children(self.cx(), node);
        }
        let ast: &'a Ast = self.ast;
        match ast.store().kind(node) {
            ExprKind::Fact(predicate, key) => {
                // Innermost first: this one's key reads what a nested one binds.
                self.hoist_within(*key, stmts);
                let ghost before = self.st();
                let row: Symbol = self.fresh(stmts.len());
                let mut alternatives: Vec<Alt> = Vec::new();
                alternatives.push(Alt { predicate: *predicate, key: *key });
                proof {
                    assert(alternatives@ =~= seq![Alt { predicate: *predicate, key: *key }]);
                }
                let ghost alts = alternatives@;
                let sealed: Box<[Alt]> = seal(alternatives);
                assert(collecting::alts_sealed(alts));
                let scan = Gen {
                    alternatives: sealed,
                    row: Some(row),
                    span: ast.store().span(node),
                    placement: Placement::Floating,
                };
                stmts.push(Stmt::Scan(scan));
                self.hoisted.push((node, row));
                proof {
                    state::lemma_ok_same(self.cx(), before, self.st());
                }
            },
            _ => {
                self.hoist_within(node, stmts);
            },
        }
    }

    /// A name for a hoisted row that no source can collide with.
    fn fresh(&mut self, level: usize) -> (row: Symbol)
        requires
            old(self).ok(),
            old(self).st().names.has_room(1),
        ensures
            row == old(self).st().names.interned(collecting::hoisted_name(level as nat)),
            final(self).st() == (St {
                names: old(self).st().names.with(collecting::hoisted_name(level as nat)),
                ..old(self).st()
            }),
            final(self).cx() == old(self).cx(),
            final(self).ok(),
    {
        let mut name: String = HOISTED.to_owned();
        push_decimal(&mut name, level as u64);
        let row = self.interner.get_or_intern(name.as_str());
        proof {
            state::lemma_ok_same(old(self).cx(), old(self).st(), self.st());
        }
        row
    }

    /// Hoist out of every key of a generator, then add the generator itself.
    fn scan(&mut self, node: NodeId, row: Option<Symbol>, stmts: &mut Vec<Stmt>)
        requires
            old(self).ok(),
            old(self).cx().ast.has(node),
            stmts_ok(old(self).cx(), old(stmts)@),
            old(self).st().names.has_room(collecting::weight(old(self).cx(), node)),
        ensures
            (final(self).st(), final(stmts)@) == collecting::scanned(
                old(self).cx(),
                old(self).st(),
                old(stmts)@,
                node,
                row,
            ),
            final(self).cx() == old(self).cx(),
            final(self).ok(),
            stmts_ok(final(self).cx(), final(stmts)@),
            final(self).st().names.local.len() <= old(self).st().names.local.len()
                + collecting::weight(old(self).cx(), node),
    {
        match self.generator(node, row) {
            None => {},
            Some(scan) => {
                let ghost start = self.st();
                let mut k: usize = 0;
                while k < scan.alternatives.len()
                    invariant
                        self.ok(),
                        self.cx() == old(self).cx(),
                        stmts_ok(self.cx(), stmts@),
                        alts_ok(self.cx(), scan.alternatives@),
                        k <= scan.alternatives@.len(),
                        (self.st(), stmts@) == collecting::hoist_alts(
                            old(self).cx(),
                            start,
                            old(stmts)@,
                            scan.alternatives@,
                            k as nat,
                        ),
                        self.st().names.local.len() <= start.names.local.len()
                            + collecting::alts_weight(self.cx(), scan.alternatives@, k as nat),
                        start.names.has_room(
                            collecting::alts_weight(
                                self.cx(),
                                scan.alternatives@,
                                scan.alternatives@.len(),
                            ),
                        ),
                    decreases scan.alternatives@.len() - k,
                {
                    proof {
                        lemma_alts_weight(
                            self.cx(),
                            scan.alternatives@,
                            (k + 1) as nat,
                            scan.alternatives@.len(),
                        );
                    }
                    self.hoist_within(scan.alternatives[k].key, stmts);
                    k += 1;
                }
                stmts.push(Stmt::Scan(scan));
            },
        }
    }

    // ---- subqueries -------------------------------------------------------------

    /// Inline a subquery's statements into the enclosing list.
    fn inline(&mut self, Ghost(node): Ghost<NodeId>, body: &[QueryStmt], stmts: &mut Vec<Stmt>)
        requires
            old(self).ok(),
            old(self).cx().ast.has(node),
            stmts_ok(old(self).cx(), old(stmts)@),
            forall|i: int| 0 <= i < body@.len() ==> syntax::stmt_below(#[trigger] body@[i], node.0 as nat),
            old(self).st().names.has_room(
                collecting::weight_stmts(old(self).cx(), node, body@, body@.len()),
            ),
        ensures
            (final(self).st(), final(stmts)@) == collecting::inlined(
                old(self).cx(),
                old(self).st(),
                old(stmts)@,
                body@,
                body@.len(),
            ),
            final(self).cx() == old(self).cx(),
            final(self).ok(),
            stmts_ok(final(self).cx(), final(stmts)@),
            final(self).st().names.local.len() <= old(self).st().names.local.len()
                + collecting::weight_stmts(old(self).cx(), node, body@, body@.len()),
    {
        let mut k: usize = 0;
        while k < body.len()
            invariant
                self.ok(),
                self.cx() == old(self).cx(),
                self.cx().ast.has(node),
                stmts_ok(self.cx(), stmts@),
                forall|i: int|
                    0 <= i < body@.len() ==> syntax::stmt_below(#[trigger] body@[i], node.0 as nat),
                k <= body@.len(),
                (self.st(), stmts@) == collecting::inlined(
                    old(self).cx(),
                    old(self).st(),
                    old(stmts)@,
                    body@,
                    k as nat,
                ),
                self.st().names.local.len() <= old(self).st().names.local.len()
                    + collecting::weight_stmts(self.cx(), node, body@, k as nat),
                old(self).st().names.has_room(
                    collecting::weight_stmts(self.cx(), node, body@, body@.len()),
                ),
            decreases body@.len() - k,
        {
            proof {
                assert(syntax::stmt_below(body@[k as int], node.0 as nat));
                lemma_weight_stmts(self.cx(), node, body@, (k + 1) as nat, body@.len());
            }
            match body[k] {
                QueryStmt::Implicit(inner) => {
                    self.scan(inner, None, stmts);
                },
                QueryStmt::Bind(lhs, rhs) => {
                    self.hoist_within(rhs, stmts);
                    stmts.push(
                        Stmt::Alias(
                            Alias { pattern: lhs, value: rhs, span: self.ast.store().span(rhs) },
                        ),
                    );
                },
                QueryStmt::Negation(inner) => {
                    self.report(inner, Code::NyiNegation, SAY_NEGATED_INSIDE);
                },
            }
            k += 1;
        }
    }

    /// Append what a statement that is a fact pattern can capture.
    fn implicit_captures(&self, stmt: QueryStmt, out: &mut Vec<Symbol>)
        requires
            self.cx().ast.wf(),
            syntax::stmt_below(stmt, self.cx().ast.tree().kinds().len()),
        ensures
            final(out)@ == old(out)@ + collecting::captures_of(self.cx(), stmt),
    {
        match stmt {
            QueryStmt::Implicit(node) => match self.ast.store().kind(node) {
                ExprKind::Fact(_, key) => {
                    proof {
                        lemma_children(self.cx(), node);
                    }
                    self.bare_variables(*key, out);
                },
                _ => {
                    proof {
                        assert(out@ + Seq::<Symbol>::empty() =~= out@);
                    }
                },
            },
            _ => {
                proof {
                    assert(out@ + Seq::<Symbol>::empty() =~= out@);
                }
            },
        }
    }

    /// The name a subquery binds that only becomes an outer name later. Sharing a name
    /// with the scope around it is how a correlated subquery works; a name it binds
    /// fresh that some later statement also binds would be two variables made one.
    fn subquery_shadows(&self, body: &[QueryStmt], at: NodeId) -> (shadowed: Option<Symbol>)
        requires
            self.cx().ast.wf(),
            forall|i: int|
                0 <= i < body@.len() ==> syntax::stmt_below(
                    #[trigger] body@[i],
                    self.cx().ast.tree().kinds().len(),
                ),
        ensures
            shadowed == collecting::shadowed(self.cx(), body@, at),
    {
        let mut inner: Vec<Symbol> = Vec::new();
        let mut k: usize = 0;
        while k < body.len()
            invariant
                self.cx().ast.wf(),
                forall|i: int|
                    0 <= i < body@.len() ==> syntax::stmt_below(
                        #[trigger] body@[i],
                        self.cx().ast.tree().kinds().len(),
                    ),
                k <= body@.len(),
                inner@ == collecting::implicit_captures(self.cx(), body@, k as nat),
            decreases body@.len() - k,
        {
            self.implicit_captures(body[k], &mut inner);
            k += 1;
        }

        let whole: &[QueryStmt] = &self.ast.query().body;
        let mut outer: Vec<Symbol> = Vec::new();
        let mut seen: bool = false;
        let mut j: usize = 0;
        while j < whole.len()
            invariant
                self.cx().ast.wf(),
                whole@ == self.cx().ast.root().body@,
                j <= whole@.len(),
                seen == collecting::bound_to(whole@, at, j as nat),
                outer@ == collecting::captures_after(self.cx(), whole@, at, j as nat),
            decreases whole@.len() - j,
        {
            let stmt: QueryStmt = whole[j];
            if seen {
                self.implicit_captures(stmt, &mut outer);
            }
            if let QueryStmt::Bind(_, rhs) = stmt {
                if rhs == at {
                    seen = true;
                }
            }
            j += 1;
        }

        let mut i: usize = 0;
        while i < inner.len()
            invariant
                inner@ == collecting::implicit_captures(self.cx(), body@, body@.len()),
                outer@ == collecting::captures_after(
                    self.cx(),
                    self.cx().ast.root().body@,
                    at,
                    self.cx().ast.root().body@.len(),
                ),
                i <= inner@.len(),
                collecting::first_shared(inner@, outer@, 0) == collecting::first_shared(
                    inner@,
                    outer@,
                    i as nat,
                ),
            decreases inner@.len() - i,
        {
            if contains(&outer, inner[i]) {
                return Some(inner[i]);
            }
            i += 1;
        }
        None
    }

    // ---- statements -------------------------------------------------------------

    /// One statement of the query's body.
    fn collect_stmt(&mut self, stmt: QueryStmt, stmts: &mut Vec<Stmt>)
        requires
            old(self).ok(),
            stmts_ok(old(self).cx(), old(stmts)@),
            syntax::stmt_below(stmt, old(self).cx().ast.tree().kinds().len()),
            stmt matches QueryStmt::Implicit(node) ==> old(self).st().names.has_room(
                collecting::weight(old(self).cx(), node),
            ),
            stmt matches QueryStmt::Bind(_, rhs) ==> old(self).st().names.has_room(
                collecting::weight(old(self).cx(), rhs),
            ),
        ensures
            (final(self).st(), final(stmts)@) == collecting::collected_stmt(
                old(self).cx(),
                old(self).st(),
                old(stmts)@,
                stmt,
            ),
            final(self).cx() == old(self).cx(),
            final(self).ok(),
            stmts_ok(final(self).cx(), final(stmts)@),
            final(self).st().names.local.len() <= old(self).st().names.local.len() + (match stmt {
                QueryStmt::Implicit(node) => collecting::weight(old(self).cx(), node),
                QueryStmt::Bind(_, rhs) => collecting::weight(old(self).cx(), rhs),
                QueryStmt::Negation(_) => 0,
            }),
    {
        let ast: &'a Ast = self.ast;
        match stmt {
            QueryStmt::Implicit(node) => {
                self.scan(node, None, stmts);
            },
            QueryStmt::Bind(lhs, rhs) => {
                proof {
                    lemma_children(self.cx(), rhs);
                }
                match ast.store().kind(rhs) {
                    // A subquery inlines: its statements are the enclosing query's, and
                    // its head is the value the bind names.
                    ExprKind::Subquery(query) => {
                        match self.subquery_shadows(&query.body, rhs) {
                            Some(name) => {
                                let message = around(
                                    SAY_SHADOWS,
                                    self.interner.shown(name),
                                    SAY_SHADOWS_OUTER,
                                );
                                self.report(rhs, Code::NyiSubquery, message.as_str());
                            },
                            None => {
                                self.inline(Ghost(rhs), &query.body, stmts);
                                stmts.push(
                                    Stmt::Alias(
                                        Alias {
                                            pattern: lhs,
                                            value: query.head,
                                            span: ast.store().span(rhs),
                                        },
                                    ),
                                );
                            },
                        }
                    },
                    ExprKind::Fact(_, _) | ExprKind::Disjunction(_) | ExprKind::Never => {
                        let row: Option<Symbol> = match ast.store().kind(lhs) {
                            ExprKind::Var(symbol) => Some(*symbol),
                            _ => None,
                        };
                        self.scan(rhs, row, stmts);
                    },
                    kind => {
                        if ast.is_constant(rhs) {
                            // Recorded and substituted at every use, so it contributes
                            // no generator and no step.
                            self.bind_pattern(lhs, Slot::Const(rhs));
                        } else if let ExprKind::Prefix(_) = kind {
                            // A pattern, not a value: it constrains where the left side
                            // already lives rather than binding it.
                            if let ExprKind::Var(symbol) = ast.store().kind(lhs) {
                                self.constraints.push((*symbol, rhs));
                                proof {
                                    lemma_ok_constraint(
                                        old(self).cx(),
                                        old(self).st(),
                                        *symbol,
                                        rhs,
                                    );
                                }
                            }
                            stmts.push(
                                Stmt::Constrain(
                                    Constraint { var: lhs, span: ast.store().span(rhs) },
                                ),
                            );
                        } else if self.names_a_location(rhs) {
                            // The right side denotes a place, so the left side is a
                            // second name for it and needs nothing computed.
                            self.hoist_within(rhs, stmts);
                            stmts.push(
                                Stmt::Alias(
                                    Alias {
                                        pattern: lhs,
                                        value: rhs,
                                        span: ast.store().span(rhs),
                                    },
                                ),
                            );
                        } else {
                            self.report(rhs, Code::NyiValueBind, SAY_VALUE_BIND);
                        }
                    },
                }
            },
            QueryStmt::Negation(node) => {
                if let Some(tested) = self.negated(node) {
                    stmts.push(Stmt::Negate(tested));
                }
            },
        }
    }

    // ---- orientation and claims -------------------------------------------------

    /// Append what the keys of some alternatives can capture.
    fn alts_captures(&self, alts: &[Alt], out: &mut Vec<Symbol>)
        requires
            self.cx().ast.wf(),
            alts_ok(self.cx(), alts@),
        ensures
            final(out)@ == old(out)@ + collecting::alts_captures(self.cx(), alts@, alts@.len()),
    {
        let mut k: usize = 0;
        proof {
            assert(out@ + Seq::<Symbol>::empty() =~= out@);
        }
        while k < alts.len()
            invariant
                self.cx().ast.wf(),
                alts_ok(self.cx(), alts@),
                k <= alts@.len(),
                out@ == old(out)@ + collecting::alts_captures(self.cx(), alts@, k as nat),
            decreases alts@.len() - k,
        {
            self.bare_variables(alts[k].key, out);
            k += 1;
            proof {
                assert(out@ =~= old(out)@ + collecting::alts_captures(self.cx(), alts@, k as nat));
            }
        }
    }

    /// Which side of `X = Y` defines the other, settled before anything else asks what
    /// a statement binds: whichever side some fact pattern can bind is where the value
    /// comes from, and the other is a second name for it.
    fn orient(&self, stmts: &mut Vec<Stmt>)
        requires
            self.cx().ast.wf(),
            stmts_ok(self.cx(), old(stmts)@),
        ensures
            final(stmts)@ == collecting::all_oriented(self.cx(), old(stmts)@),
            stmts_ok(self.cx(), final(stmts)@),
    {
        let mut bound: Vec<Symbol> = Vec::new();
        let mut k: usize = 0;
        while k < stmts.len()
            invariant
                self.cx().ast.wf(),
                stmts@ == old(stmts)@,
                stmts_ok(self.cx(), stmts@),
                k <= stmts@.len(),
                bound@ == collecting::bindable(self.cx(), stmts@, k as nat),
            decreases stmts@.len() - k,
        {
            let ghost before = bound@;
            proof {
                assert(stmt_ok(self.cx(), stmts@[k as int]));
            }
            if let Stmt::Scan(scan) = &stmts[k] {
                if let Some(row) = scan.row {
                    bound.push(row);
                }
                self.alts_captures(&scan.alternatives, &mut bound);
            }
            k += 1;
            proof {
                assert(bound@ =~= collecting::bindable(self.cx(), stmts@, k as nat));
            }
        }

        let ghost start = stmts@;
        let mut i: usize = 0;
        while i < stmts.len()
            invariant
                self.cx().ast.wf(),
                start == old(stmts)@,
                stmts_ok(self.cx(), start),
                stmts_ok(self.cx(), stmts@),
                bound@ == collecting::bindable(self.cx(), start, start.len()),
                stmts@.len() == start.len(),
                i <= stmts@.len(),
                forall|j: int|
                    0 <= j < i ==> (#[trigger] stmts@[j]) == collecting::oriented(
                        self.cx(),
                        bound@,
                        start[j],
                    ),
                forall|j: int| i <= j < stmts@.len() ==> (#[trigger] stmts@[j]) == start[j],
            decreases stmts@.len() - i,
        {
            proof {
                assert(stmt_ok(self.cx(), stmts@[i as int]));
            }
            let turned: Option<Alias> = match &stmts[i] {
                Stmt::Alias(alias) => {
                    let bare: bool = match self.ast.store().kind(alias.value) {
                        ExprKind::Var(_) => true,
                        _ => false,
                    };
                    if bare && self.is_one_of(alias.pattern, &bound) && !self.is_one_of(
                        alias.value,
                        &bound,
                    ) {
                        Some(
                            Alias { pattern: alias.value, value: alias.pattern, span: alias.span },
                        )
                    } else {
                        None
                    }
                },
                _ => None,
            };
            let ghost before = stmts@;
            if let Some(alias) = turned {
                stmts.set(i, Stmt::Alias(alias));
                proof {
                    assert forall|j: int| 0 <= j < stmts@.len() implies stmt_ok(
                        self.cx(),
                        #[trigger] stmts@[j],
                    ) by {
                        if j != i {
                            assert(stmts@[j] == before[j]);
                        }
                    }
                }
            }
            i += 1;
        }
        proof {
            assert(stmts@ =~= collecting::all_oriented(self.cx(), old(stmts)@));
        }
    }

    /// Whether `X = Y` compares two variables that keys can bind.
    fn is_compare(&self, alias: &Alias, capturable: &Vec<Symbol>) -> (yes: bool)
        requires
            self.cx().ast.has(alias.pattern),
            self.cx().ast.has(alias.value),
        ensures
            yes == collecting::is_compare(self.cx(), *alias, capturable@),
    {
        self.is_one_of(alias.pattern, capturable) && self.is_one_of(alias.value, capturable)
    }

    /// Claim some names, reporting a second claim of one.
    fn claim(&mut self, claims: &mut Claims, names: &Vec<Symbol>, span: NodeSpan, is_row: bool)
        requires
            old(self).ok(),
        ensures
            (final(self).st(), final(claims)@) == collecting::claim_names(
                old(self).st(),
                old(claims)@,
                names@,
                names@.len(),
                span,
                is_row,
            ),
            final(self).cx() == old(self).cx(),
            final(self).ok(),
            final(self).st().names == old(self).st().names,
            final(claims)@.capturable == old(claims)@.capturable,
    {
        let mut k: usize = 0;
        while k < names.len()
            invariant
                self.ok(),
                self.cx() == old(self).cx(),
                k <= names@.len(),
                (self.st(), claims@) == collecting::claim_names(
                    old(self).st(),
                    old(claims)@,
                    names@,
                    k as nat,
                    span,
                    is_row,
                ),
                self.st().names == old(self).st().names,
                claims@.capturable == old(claims)@.capturable,
            decreases names@.len() - k,
        {
            let name: Symbol = names[k];
            if contains(&claims.rows, name) || contains(&claims.aliased, name) {
                let ghost before = self.st();
                let message = around(SAY_ALREADY, self.interner.shown(name), SAY_ALREADY_IS);
                self.diagnostics.error(Code::NyiBindUnification, message, span);
                proof {
                    state::lemma_ok_same(self.cx(), before, self.st());
                }
            } else if is_row {
                claims.rows.push(name);
            } else {
                claims.aliased.push(name);
            }
            k += 1;
        }
    }

    /// Every variable a statement claims, reporting a second claim. Two statements
    /// claiming one variable is unification, and this is the only place it can be seen.
    fn claims(&mut self, stmts: &Vec<Stmt>) -> (claims: Claims)
        requires
            old(self).ok(),
            stmts_ok(old(self).cx(), stmts@),
        ensures
            (final(self).st(), claims@) == collecting::claimed(
                old(self).cx(),
                old(self).st(),
                stmts@,
                stmts@.len(),
            ),
            final(self).cx() == old(self).cx(),
            final(self).ok(),
            final(self).st().names == old(self).st().names,
    {
        let mut claims = Claims { rows: Vec::new(), aliased: Vec::new(), capturable: Vec::new() };
        let mut k: usize = 0;
        while k < stmts.len()
            invariant
                self.st() == old(self).st(),
                self.ok(),
                self.cx() == old(self).cx(),
                stmts_ok(self.cx(), stmts@),
                k <= stmts@.len(),
                claims.rows@ == Seq::<Symbol>::empty(),
                claims.aliased@ == Seq::<Symbol>::empty(),
                claims.capturable@ == collecting::capturable(self.cx(), stmts@, k as nat),
            decreases stmts@.len() - k,
        {
            proof {
                assert(stmt_ok(self.cx(), stmts@[k as int]));
                assert(claims.capturable@ + Seq::<Symbol>::empty() =~= claims.capturable@);
            }
            if let Stmt::Scan(scan) = &stmts[k] {
                self.alts_captures(&scan.alternatives, &mut claims.capturable);
            }
            k += 1;
        }

        let mut i: usize = 0;
        while i < stmts.len()
            invariant
                self.ok(),
                self.cx() == old(self).cx(),
                stmts_ok(self.cx(), stmts@),
                i <= stmts@.len(),
                (self.st(), claims@) == collecting::claimed(
                    old(self).cx(),
                    old(self).st(),
                    stmts@,
                    i as nat,
                ),
                self.st().names == old(self).st().names,
            decreases stmts@.len() - i,
        {
            proof {
                assert(stmt_ok(self.cx(), stmts@[i as int]));
            }
            match &stmts[i] {
                Stmt::Scan(scan) => {
                    if let Some(row) = scan.row {
                        let mut names: Vec<Symbol> = Vec::new();
                        names.push(row);
                        proof {
                            assert(names@ =~= seq![row]);
                        }
                        self.claim(&mut claims, &names, scan.span, true);
                    }
                },
                Stmt::Alias(alias) => {
                    // A compare claims nothing: it says two things are equal, not what
                    // either one is.
                    if !self.is_compare(alias, &claims.capturable) {
                        let mut names: Vec<Symbol> = Vec::new();
                        self.bare_variables(alias.pattern, &mut names);
                        proof {
                            assert(names@ =~= model::bare_variables(self.cx(), alias.pattern));
                        }
                        self.claim(&mut claims, &names, alias.span, false);
                    }
                },
                Stmt::Negate(_) => {},
                Stmt::Constrain(_) => {},
            }
            i += 1;
        }
        claims
    }

    // ---- occurrences ------------------------------------------------------------

    /// Record the read of a hoisted generator's row.
    fn read_hoisted(&self, node: NodeId, occurs: &mut Occurrences)
        ensures
            final(occurs)@ == collecting::read_hoisted(self.st(), node, old(occurs)@),
    {
        if let Some(row) = self.hoisted_row(node) {
            occurs.read(row);
        }
    }

    /// The variable a read is rooted at, or the row a hoisted generator was given.
    fn scan_read(&self, node: NodeId, occurs: &mut Occurrences)
        requires
            self.cx().ast.wf(),
            self.cx().ast.has(node),
        ensures
            final(occurs)@ == collecting::scan_read(self.cx(), self.st(), node, old(occurs)@),
    {
        let root: NodeId = self.chain_root(node);
        match self.ast.store().kind(root) {
            ExprKind::Var(symbol) => {
                occurs.read(*symbol);
            },
            ExprKind::Fact(_, _) => {
                self.read_hoisted(root, occurs);
            },
            _ => {},
        }
    }

    /// Walk one field of a key pattern for variable occurrences, reporting anything the
    /// plan cannot express.
    fn scan_field(
        &mut self,
        node: NodeId,
        ty: &PredicateTy,
        claims: &Claims,
        occurs: &mut Occurrences,
    )
        requires
            old(self).ok(),
            old(self).cx().ast.has(node),
        ensures
            (final(self).st(), final(occurs)@) == collecting::scan_field(
                old(self).cx(),
                old(self).st(),
                node,
                *ty,
                claims@,
                old(occurs)@,
            ),
            final(self).cx() == old(self).cx(),
            final(self).ok(),
            final(self).st().names == old(self).st().names,
        decreases node.0,
    {
        let ast: &'a Ast = self.ast;
        match ast.store().kind(node) {
            ExprKind::Var(symbol) => {
                // For an alias the claim holds wherever the variable occurs. For a row
                // it holds only at a fact-typed field, the one place the two could be
                // confused.
                let fact: bool = match ty {
                    PredicateTy::Fact(_) => true,
                    _ => false,
                };
                if contains(&claims.aliased, *symbol) || (fact && contains(&claims.rows, *symbol)) {
                    occurs.read(*symbol);
                } else {
                    occurs.capture(*symbol);
                }
            },
            ExprKind::Record(fields) => {
                if let PredicateTy::Record(tys) = ty {
                    let mut k: usize = 0;
                    while k < tys.len()
                        invariant
                            self.ok(),
                            self.cx() == old(self).cx(),
                            ast == self.ast,
                            ast.has(node),
                            ast.kind(node) == ExprKind::Record(*fields),
                            k <= tys@.len(),
                            (self.st(), occurs@) == collecting::scan_fields(
                                old(self).cx(),
                                old(self).st(),
                                node,
                                fields@,
                                tys@,
                                k as nat,
                                claims@,
                                old(occurs)@,
                            ),
                            self.st().names == old(self).st().names,
                        decreases tys@.len() - k,
                    {
                        let name = Symbol::Schema(tys[k].0);
                        proof {
                            state::lemma_piece(self.cx(), node, *fields, name);
                        }
                        match find_pattern(fields, name) {
                            Some(piece) => {
                                self.scan_field(piece, &tys[k].1, claims, occurs);
                            },
                            None => {},
                        }
                        k += 1;
                    }
                }
            },
            ExprKind::Access(FieldRef::Value, _) => {
                self.report(node, Code::NyiValueMatch, SAY_VALUE_MATCH_ROW);
            },
            ExprKind::Access(FieldRef::Key(_), _) => {
                self.scan_read(node, occurs);
            },
            ExprKind::Select(_, _) => {
                self.scan_read(node, occurs);
            },
            // Hoisted into its own level by now, and read from here like the row bind
            // it became.
            ExprKind::Fact(_, _) => {
                self.read_hoisted(node, occurs);
            },
            _ => {},
        }
    }

    /// Walk a key pattern for variable occurrences.
    fn scan_key(&mut self, alt: Alt, claims: &Claims, occurs: &mut Occurrences)
        requires
            old(self).ok(),
            old(self).cx().ast.has(alt.key),
        ensures
            (final(self).st(), final(occurs)@) == collecting::scan_key(
                old(self).cx(),
                old(self).st(),
                alt,
                claims@,
                old(occurs)@,
            ),
            final(self).cx() == old(self).cx(),
            final(self).ok(),
            final(self).st().names == old(self).st().names,
    {
        let key_ty: PredicateTy = match self.schema.get(alt.predicate) {
            Some(declared) => declared.key().ty.clone(),
            None => {
                return;
            },
        };
        self.scan_field(alt.key, &key_ty, claims, occurs);
    }

    /// Walk the head for the variables it reads, reporting anything unprojectable. A
    /// head never captures: it is read after every generator has run.
    fn scan_head(&mut self, node: NodeId, occurs: &mut Occurrences)
        requires
            old(self).ok(),
            old(self).cx().ast.has(node),
        ensures
            (final(self).st(), final(occurs)@) == collecting::scan_head(
                old(self).cx(),
                old(self).st(),
                node,
                old(occurs)@,
            ),
            final(self).cx() == old(self).cx(),
            final(self).ok(),
            final(self).st().names == old(self).st().names,
        decreases node.0,
    {
        let ast: &'a Ast = self.ast;
        match ast.store().kind(node) {
            ExprKind::Lit(_) => {},
            ExprKind::Var(symbol) => {
                occurs.read(*symbol);
            },
            ExprKind::Record(fields) => {
                let mut k: usize = 0;
                while k < fields.len()
                    invariant
                        self.ok(),
                        self.cx() == old(self).cx(),
                        ast == self.ast,
                        ast.has(node),
                        ast.kind(node) == ExprKind::Record(*fields),
                        k <= fields@.len(),
                        (self.st(), occurs@) == collecting::scan_head_fields(
                            old(self).cx(),
                            old(self).st(),
                            node,
                            fields@,
                            k as nat,
                            old(occurs)@,
                        ),
                        self.st().names == old(self).st().names,
                    decreases fields@.len() - k,
                {
                    proof {
                        state::lemma_child(self.cx(), node, *fields, k as int);
                    }
                    self.scan_head(fields[k].1, occurs);
                    k += 1;
                }
            },
            ExprKind::Fact(_, _) => {
                self.read_hoisted(node, occurs);
            },
            ExprKind::Access(_, _) | ExprKind::Select(_, _) => {
                let rooted: bool = match ast.store().kind(self.chain_root(node)) {
                    ExprKind::Var(_) | ExprKind::Fact(_, _) => true,
                    _ => false,
                };
                if rooted {
                    self.scan_read(node, occurs);
                } else {
                    self.report(node, Code::RejectNotProjectable, SAY_NOT_PROJECTABLE);
                }
            },
            _ => {
                self.report(node, Code::RejectNotProjectable, SAY_NOT_PROJECTABLE);
            },
        }
    }

    /// A scan's occurrences. Captures intersect and reads unite: a variable only some
    /// branch binds is not bound after the statement, and anything any branch reads has
    /// to be bound before it.
    fn scan_occurs(&mut self, scan: &Gen, claims: &Claims) -> (occurs: Occurrences)
        requires
            old(self).ok(),
            alts_ok(old(self).cx(), scan.alternatives@),
        ensures
            (final(self).st(), occurs@) == collecting::stmt_occurs(
                old(self).cx(),
                old(self).st(),
                claims@,
                Stmt::Scan(*scan),
            ),
            final(self).cx() == old(self).cx(),
            final(self).ok(),
            final(self).st().names == old(self).st().names,
    {
        let mut occurs = Occurrences::new();
        if let Some(row) = scan.row {
            occurs.capture(row);
        }
        let ghost own = occurs@;
        let mut per_branch: Vec<Vec<Symbol>> = Vec::new();
        let ghost mut shown: Seq<Seq<Symbol>> = Seq::empty();
        let ghost mut reads: Seq<Symbol> = Seq::empty();
        let mut k: usize = 0;
        proof {
            assert(own.reads + Seq::<Symbol>::empty() =~= own.reads);
        }
        while k < scan.alternatives.len()
            invariant
                self.ok(),
                self.cx() == old(self).cx(),
                alts_ok(self.cx(), scan.alternatives@),
                k <= scan.alternatives@.len(),
                (self.st(), reads, shown) == collecting::scan_branches(
                    old(self).cx(),
                    old(self).st(),
                    claims@,
                    scan.alternatives@,
                    k as nat,
                ),
                occurs@ == (Occurs { reads: own.reads + reads, ..own }),
                per_branch@.len() == shown.len(),
                forall|i: int| 0 <= i < shown.len() ==> (#[trigger] per_branch@[i])@ == shown[i],
                self.st().names == old(self).st().names,
            decreases scan.alternatives@.len() - k,
        {
            let mut branch = Occurrences::new();
            self.scan_key(scan.alternatives[k], claims, &mut branch);
            extend(&mut occurs.reads, &branch.reads);
            proof {
                assert(own.reads + reads + branch.reads@ =~= own.reads + (reads + branch.reads@));
                reads = reads + branch.reads@;
                shown = shown.push(branch.captures@);
            }
            per_branch.push(branch.captures);
            k += 1;
        }
        if per_branch.len() > 0 {
            let ghost with_reads = occurs@;
            let mut i: usize = 0;
            while i < per_branch[0].len()
                invariant
                    per_branch@.len() == shown.len(),
                    shown.len() > 0,
                    forall|j: int| 0 <= j < shown.len() ==> (#[trigger] per_branch@[j])@ == shown[j],
                    i <= shown[0].len(),
                    occurs@ == collecting::capture_common(with_reads, shown, i as nat),
                decreases shown[0].len() - i,
            {
                let var: Symbol = per_branch[0][i];
                let mut everywhere: bool = true;
                let mut b: usize = 0;
                while b < per_branch.len()
                    invariant
                        per_branch@.len() == shown.len(),
                        forall|j: int|
                            0 <= j < shown.len() ==> (#[trigger] per_branch@[j])@ == shown[j],
                        b <= shown.len(),
                        everywhere == (forall|j: int|
                            0 <= j < b ==> (#[trigger] shown[j]).contains(var)),
                    decreases shown.len() - b,
                {
                    let ghost was = everywhere;
                    proof {
                        assert(per_branch@[b as int]@ == shown[b as int]);
                    }
                    if !contains(&per_branch[b], var) {
                        everywhere = false;
                        proof {
                            assert(!shown[b as int].contains(var));
                        }
                    }
                    b += 1;
                }
                if everywhere {
                    occurs.capture(var);
                }
                i += 1;
            }
        }
        occurs
    }

    /// A negation reads everything and captures nothing: nothing inside it escapes, and
    /// an unbound variable inside it would behave as a wildcard.
    fn negation_occurs(&mut self, tested: &Gen, claims: &Claims) -> (occurs: Occurrences)
        requires
            old(self).ok(),
            alts_ok(old(self).cx(), tested.alternatives@),
        ensures
            (final(self).st(), occurs@) == collecting::stmt_occurs(
                old(self).cx(),
                old(self).st(),
                claims@,
                Stmt::Negate(*tested),
            ),
            final(self).cx() == old(self).cx(),
            final(self).ok(),
            final(self).st().names == old(self).st().names,
    {
        let mut walked = Occurrences::new();
        let mut k: usize = 0;
        while k < tested.alternatives.len()
            invariant
                self.ok(),
                self.cx() == old(self).cx(),
                alts_ok(self.cx(), tested.alternatives@),
                k <= tested.alternatives@.len(),
                (self.st(), walked@) == collecting::scan_alts(
                    old(self).cx(),
                    old(self).st(),
                    claims@,
                    tested.alternatives@,
                    k as nat,
                    Occurs::none(),
                ),
                self.st().names == old(self).st().names,
            decreases tested.alternatives@.len() - k,
        {
            self.scan_key(tested.alternatives[k], claims, &mut walked);
            k += 1;
        }
        let ghost all = walked@;
        let captures: Vec<Symbol> = walked.captures;
        let mut occurs = Occurrences { captures: Vec::new(), reads: walked.reads };
        let ghost start = occurs@;
        let mut i: usize = 0;
        while i < captures.len()
            invariant
                i <= captures@.len(),
                occurs@ == start.read_all(captures@, i as nat),
            decreases captures@.len() - i,
        {
            occurs.read(captures[i]);
            i += 1;
        }
        occurs
    }

    /// What one statement can capture and has to read.
    fn stmt_occurs(&mut self, stmt: &Stmt, claims: &Claims) -> (occurs: Occurrences)
        requires
            old(self).ok(),
            stmt_ok(old(self).cx(), *stmt),
        ensures
            (final(self).st(), occurs@) == collecting::stmt_occurs(
                old(self).cx(),
                old(self).st(),
                claims@,
                *stmt,
            ),
            final(self).cx() == old(self).cx(),
            final(self).ok(),
            final(self).st().names == old(self).st().names,
    {
        match stmt {
            Stmt::Scan(scan) => self.scan_occurs(scan, claims),
            Stmt::Negate(tested) => self.negation_occurs(tested, claims),
            Stmt::Alias(alias) => {
                let mut occurs = Occurrences::new();
                // `X = Y` with both sides bare variables a key can bind is a compare,
                // not a definition: it reads both and binds neither.
                if self.is_compare(alias, &claims.capturable) {
                    self.scan_read(alias.pattern, &mut occurs);
                } else {
                    let mut vars: Vec<Symbol> = Vec::new();
                    self.bare_variables(alias.pattern, &mut vars);
                    proof {
                        assert(vars@ =~= model::bare_variables(self.cx(), alias.pattern));
                    }
                    let mut i: usize = 0;
                    while i < vars.len()
                        invariant
                            i <= vars@.len(),
                            occurs@ == Occurs::none().capture_all(vars@, i as nat),
                        decreases vars@.len() - i,
                    {
                        occurs.capture(vars[i]);
                        i += 1;
                    }
                }
                self.scan_read(alias.value, &mut occurs);
                occurs
            },
            Stmt::Constrain(constraint) => {
                let mut occurs = Occurrences::new();
                self.scan_read(constraint.var, &mut occurs);
                occurs
            },
        }
    }

    /// A variable only a negation names would be a wildcard, and the spelling of that
    /// is `_`.
    fn negated_wildcards(&mut self, stmts: &Vec<Stmt>, deps: &Vec<StmtDeps>)
        requires
            old(self).ok(),
            stmts@.len() == deps@.len(),
        ensures
            final(self).st() == collecting::negated_wildcards(
                old(self).st(),
                collecting::all_captures(deps@, deps@.len()) + collecting::folded(
                    old(self).st().bindings,
                    old(self).st().bindings.len(),
                ),
                stmts@,
                deps@,
                stmts@.len(),
            ),
            final(self).cx() == old(self).cx(),
            final(self).ok(),
            final(self).st().names == old(self).st().names,
    {
        let mut known: Vec<Symbol> = Vec::new();
        let mut d: usize = 0;
        while d < deps.len()
            invariant
                d <= deps@.len(),
                known@ == collecting::all_captures(deps@, d as nat),
            decreases deps@.len() - d,
        {
            extend(&mut known, &deps[d].captures);
            d += 1;
        }
        self.folded(&mut known);

        let mut k: usize = 0;
        while k < stmts.len()
            invariant
                self.ok(),
                self.cx() == old(self).cx(),
                stmts@.len() == deps@.len(),
                k <= stmts@.len(),
                self.st() == collecting::negated_wildcards(
                    old(self).st(),
                    known@,
                    stmts@,
                    deps@,
                    k as nat,
                ),
                self.st().names == old(self).st().names,
            decreases stmts@.len() - k,
        {
            if let Stmt::Negate(tested) = &stmts[k] {
                let ghost start = self.st();
                let mut i: usize = 0;
                while i < deps[k].reads.len()
                    invariant
                        self.ok(),
                        self.cx() == old(self).cx(),
                        k < deps@.len(),
                        i <= deps@[k as int].reads@.len(),
                        self.st() == collecting::unbound_reads(
                            start,
                            known@,
                            deps@[k as int].reads@,
                            i as nat,
                            tested.span,
                        ),
                        self.st().names == old(self).st().names,
                    decreases deps@[k as int].reads@.len() - i,
                {
                    let read: Symbol = deps[k].reads[i];
                    if !contains(&known, read) {
                        let ghost before = self.st();
                        let message = around(
                            SAY_NOTHING_BINDS,
                            self.interner.shown(read),
                            SAY_WILDCARD_MEANT,
                        );
                        self.diagnostics.error(Code::RejectUnboundVariable, message, tested.span);
                        proof {
                            state::lemma_ok_same(self.cx(), before, self.st());
                        }
                    }
                    i += 1;
                }
            }
            k += 1;
        }
    }

    /// Append the variables a constant was folded into.
    pub fn folded(&self, out: &mut Vec<Symbol>)
        ensures
            final(out)@ == old(out)@ + collecting::folded(
                self.st().bindings,
                self.st().bindings.len(),
            ),
    {
        let mut i: usize = 0;
        proof {
            assert(out@ + Seq::<Symbol>::empty() =~= out@);
        }
        while i < self.bindings.len()
            invariant
                i <= self.bindings@.len(),
                out@ == old(out)@ + collecting::folded(self.bindings@, i as nat),
            decreases self.bindings@.len() - i,
        {
            if let Slot::Const(_) = &self.bindings[i].1 {
                out.push(self.bindings[i].0);
            }
            i += 1;
            proof {
                assert(out@ =~= old(out)@ + collecting::folded(self.bindings@, i as nat));
            }
        }
    }

    // ---- all of it --------------------------------------------------------------

    /// Statements into generators, plus the dependency graph and the head's reads.
    /// Everything that does not depend on the order is decided here, and everything
    /// wrong with it is reported before giving up.
    pub fn collect(&mut self) -> (found: Option<Collected>)
        requires
            old(self).ok(),
            old(self).st().names.has_room(collecting::query_weight(old(self).cx())),
        ensures
            match (found, collecting::collected(old(self).cx(), old(self).st())) {
                (Some(gathered), (st, Some(expected))) => gathered@ == expected && final(self).st()
                    == st && stmts_ok(final(self).cx(), gathered.stmts@),
                (None, (st, None)) => final(self).st() == st,
                _ => false,
            },
            final(self).cx() == old(self).cx(),
            final(self).ok(),
    {
        let mark: usize = self.diagnostics.len();
        let ast: &'a Ast = self.ast;
        let body: &[QueryStmt] = &ast.query().body;
        let head: NodeId = ast.query().head;
        let mut stmts: Vec<Stmt> = Vec::new();
        let mut k: usize = 0;
        while k < body.len()
            invariant
                self.ok(),
                self.cx() == old(self).cx(),
                ast == self.ast,
                body@ == ast.root().body@,
                head == ast.root().head,
                stmts_ok(self.cx(), stmts@),
                k <= body@.len(),
                (self.st(), stmts@) == collecting::collected_body(
                    old(self).cx(),
                    old(self).st(),
                    body@,
                    k as nat,
                ),
                self.st().names.local.len() <= old(self).st().names.local.len()
                    + collecting::body_weight(self.cx(), body@, k as nat),
                old(self).st().names.has_room(collecting::query_weight(self.cx())),
            decreases body@.len() - k,
        {
            proof {
                lemma_body_weight(self.cx(), body@, (k + 1) as nat, body@.len());
            }
            self.collect_stmt(body[k], &mut stmts);
            k += 1;
        }

        // The head last: a generator in the head is read by the projection, which runs
        // once every level has bound, and nothing reads it.
        self.hoist_node(head, &mut stmts);

        self.orient(&mut stmts);
        let claims = self.claims(&stmts);
        let ghost start = self.st();

        let mut deps: Vec<StmtDeps> = Vec::new();
        let mut d: usize = 0;
        while d < stmts.len()
            invariant
                self.ok(),
                self.cx() == old(self).cx(),
                stmts_ok(self.cx(), stmts@),
                d <= stmts@.len(),
                deps@.len() == d,
                (self.st(), deps@) == collecting::deps_of(
                    old(self).cx(),
                    start,
                    claims@,
                    stmts@,
                    d as nat,
                ),
            decreases stmts@.len() - d,
        {
            proof {
                assert(stmt_ok(self.cx(), stmts@[d as int]));
            }
            let occurs = self.stmt_occurs(&stmts[d], &claims);
            deps.push(
                StmtDeps {
                    captures: seal(occurs.captures),
                    reads: seal(occurs.reads),
                    placement: stmts[d].placement(),
                },
            );
            d += 1;
        }

        self.negated_wildcards(&stmts, &deps);

        let mut reads = Occurrences::new();
        self.scan_head(head, &mut reads);

        if self.diagnostics.len() != mark {
            return None;
        }
        Some(Collected { stmts, deps: Deps::new(deps), head_reads: reads.reads })
    }
}

// ---- lemmas -----------------------------------------------------------------

proof fn lemma_ok_constraint(cx: Cx, st: St, symbol: Symbol, node: NodeId)
    requires
        state::state_ok(cx, st),
        cx.ast.has(node),
    ensures
        state::state_ok(cx, St { constraints: st.constraints.push((symbol, node)), ..st }),
{
    let after = st.constraints.push((symbol, node));
    assert forall|i: int| 0 <= i < after.len() implies cx.ast.has((#[trigger] after[i]).1) by {
        if i < st.constraints.len() {
            assert(after[i] == st.constraints[i]);
        }
    }
}

proof fn lemma_alts_weight_push(cx: Cx, alts: Seq<Alt>, alt: Alt)
    ensures
        collecting::alts_weight(cx, alts.push(alt), alts.len() + 1) == collecting::alts_weight(
            cx,
            alts,
            alts.len(),
        ) + collecting::weight(cx, alt.key),
{
    lemma_alts_weight_same(cx, alts, alts.push(alt), alts.len());
}

proof fn lemma_alts_weight_same(cx: Cx, a: Seq<Alt>, b: Seq<Alt>, k: nat)
    requires
        k <= a.len(),
        k <= b.len(),
        forall|i: int| 0 <= i < k ==> a[i] == b[i],
    ensures
        collecting::alts_weight(cx, a, k) == collecting::alts_weight(cx, b, k),
    decreases k,
{
    if k > 0 {
        lemma_alts_weight_same(cx, a, b, (k - 1) as nat);
    }
}

proof fn lemma_alts_weight(cx: Cx, alts: Seq<Alt>, k: nat, n: nat)
    requires
        k <= n,
    ensures
        collecting::alts_weight(cx, alts, k) <= collecting::alts_weight(cx, alts, n),
    decreases n,
{
    if k < n {
        lemma_alts_weight(cx, alts, k, (n - 1) as nat);
    }
}

proof fn lemma_weight_fields(
    cx: Cx,
    node: NodeId,
    fields: Seq<(Symbol, NodeId)>,
    k: nat,
    n: nat,
)
    requires
        k <= n,
    ensures
        collecting::weight_fields(cx, node, fields, k) <= collecting::weight_fields(
            cx,
            node,
            fields,
            n,
        ),
    decreases n,
{
    if k < n {
        lemma_weight_fields(cx, node, fields, k, (n - 1) as nat);
    }
}

proof fn lemma_weight_stmts(cx: Cx, node: NodeId, body: Seq<QueryStmt>, k: nat, n: nat)
    requires
        k <= n,
    ensures
        collecting::weight_stmts(cx, node, body, k) <= collecting::weight_stmts(
            cx,
            node,
            body,
            n,
        ),
    decreases n,
{
    if k < n {
        lemma_weight_stmts(cx, node, body, k, (n - 1) as nat);
    }
}

proof fn lemma_body_weight(cx: Cx, body: Seq<QueryStmt>, k: nat, n: nat)
    requires
        k <= n,
    ensures
        collecting::body_weight(cx, body, k) <= collecting::body_weight(cx, body, n),
    decreases n,
{
    if k < n {
        lemma_body_weight(cx, body, k, (n - 1) as nat);
    }
}

proof fn lemma_branches_fail(cx: Cx, st: St, branches: Seq<NodeId>, k: nat, n: nat)
    requires
        k <= n,
        collecting::branches_of(cx, st, branches, k).1 is None,
    ensures
        collecting::branches_of(cx, st, branches, n) == collecting::branches_of(
            cx,
            st,
            branches,
            k,
        ),
    decreases n,
{
    if k < n {
        lemma_branches_fail(cx, st, branches, k, (n - 1) as nat);
    }
}

} // verus!
