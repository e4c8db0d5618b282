//! flatten — the typed query becomes a program the machine runs.
//!
//! Four things happen here, in this order, and the order is the design:
//!
//! 1. **Collect** the statements. A statement is a fact pattern, optionally bound to a
//!    variable, and each becomes one loop level holding one register. A fact pattern
//!    written *inside* another is hoisted into a level of its own. A substitution names
//!    a place or folds a constant, and a constraint says what a value has to look like;
//!    neither iterates anything.
//! 2. **Safety.** Every variable a seek, a residual or the head *reads* must be captured
//!    by some generator's key pattern. A query with an uncaptured variable is rejected,
//!    not answered.
//! 3. **Reorder**, over the dependency graph collect built: any order that binds before
//!    it reads gives the same answer.
//! 4. **Sargeability**, walking each level's key fields in the chosen order and
//!    deciding, per field, whether it narrows the scan, is filled from a register bound
//!    at an outer level, or filters rows as they come.
//!
//! Every type in the program comes from the schema, walked along the same path the
//! program will read when it runs, so a projection cannot disagree with the bytes it
//! decodes.
use vstd::prelude::*;

use crate::diag::{Diagnostics, Report};
use crate::iter;
use crate::iter::Address;
use crate::machine;
use crate::plan::Plan;
use crate::program;
use crate::program::{Program, Step};
use crate::reorder;
use crate::reorder::{reorder as choose_order, Deps};
use crate::schema::{LocalInterner, Names, Schema};
use crate::syntax::Ast;

use self::emitting::Compiled;
use self::model::{Cx, St};
use self::state::Flattener;

pub mod admitting;
pub mod allowing;
pub mod answering;
pub mod collect;
pub mod collecting;
pub mod depending;
pub mod emit;
pub mod emitting;
pub mod filtering;
pub mod finishing;
pub mod gathering;
pub mod heads;
pub mod laws;
pub mod matching;
pub mod model;
pub mod orders;
pub mod rewriting;
pub mod running;
pub mod scope;
pub mod seeking;
pub mod standing;
pub mod state;
pub mod taking;
pub mod telling;

verus! {

/// The state a flattening starts in: nothing bound, nothing hoisted.
pub open spec fn beginning(names: Names, reports: Seq<Report>) -> St {
    St {
        bindings: Seq::empty(),
        compares: Seq::empty(),
        hoisted: Seq::empty(),
        fetched: Seq::empty(),
        constraints: Seq::empty(),
        constrained: Seq::empty(),
        names,
        reports,
        sealed: true,
    }
}

/// What flattening a query comes to: the names and reports it leaves, and the program.
pub open spec fn outcome(
    ast: Ast,
    schema: Schema,
    names: Names,
    reports: Seq<Report>,
    given: Option<Seq<usize>>,
) -> (St, Option<Compiled>) {
    emitting::flattened(Cx { ast, schema }, beginning(names, reports), given)
}

/// Whether the query's tier has room for the names a flattening may bring: one for each
/// nested fact pattern.
pub open spec fn has_room(ast: Ast, schema: Schema, names: Names) -> bool {
    names.has_room(collecting::query_weight(Cx { ast, schema }))
}

/// Whether a given order names every statement, where collecting gets that far.
pub open spec fn names_every_statement(
    ast: Ast,
    schema: Schema,
    names: Names,
    reports: Seq<Report>,
    order: Seq<usize>,
) -> bool {
    collecting::collected(Cx { ast, schema }, beginning(names, reports)).1 matches Some(gathered)
        ==> order.len() == gathered.stmts.len()
}

/// Whether `found` is the program `expected` describes. Its registers are the positions
/// of the levels that fill them, there are as many as there are levels, and every step
/// reads only those of earlier levels.
pub open spec fn is_program(found: Option<Program>, expected: Option<Compiled>) -> bool {
    match (found, expected) {
        (Some(program), Some(compiled)) => {
            &&& program.nvars == compiled.nvars
            &&& program.body@ == compiled.body
            &&& program.head.shape() == compiled.head
            &&& program.nvars == program::level_count(program.body@)
            &&& emitting::registers_are_positions(program.body@)
            &&& program::well_scoped(program.body@)
            &&& program::projects_below(program.head.shape(), program.nvars as nat)
        },
        (None, None) => true,
        _ => false,
    }
}

/// Lower a typechecked query to a program, reporting into `diagnostics`.
///
/// `None` means the query has no program. A caller decides validity by asking the sink,
/// not by the `Option`.
pub fn flatten(
    ast: &Ast,
    schema: &Schema,
    interner: &mut LocalInterner,
    diagnostics: &mut Diagnostics,
) -> (found: Option<Program>)
    requires
        ast.wf(),
        has_room(*ast, *schema, old(interner)@),
    ensures
        ({
            let (st, expected) = outcome(
                *ast,
                *schema,
                old(interner)@,
                old(diagnostics)@,
                None,
            );
            &&& is_program(found, expected)
            &&& st.sealed
            &&& final(interner)@ == st.names
            &&& final(diagnostics)@ == st.reports
        }),
        found is Some ==> final(diagnostics)@ == old(diagnostics)@,
        old(diagnostics)@.is_prefix_of(final(diagnostics)@),
{
    flatten_ordered(ast, schema, interner, diagnostics, None)
}

/// Flatten with the loop order given rather than chosen.
///
/// `order` names every statement; one that reads a variable before anything binds it is
/// reported like any other unbound variable.
pub fn flatten_in_order(
    ast: &Ast,
    schema: &Schema,
    interner: &mut LocalInterner,
    diagnostics: &mut Diagnostics,
    order: &[usize],
) -> (found: Option<Program>)
    requires
        ast.wf(),
        has_room(*ast, *schema, old(interner)@),
        names_every_statement(*ast, *schema, old(interner)@, old(diagnostics)@, order@),
    ensures
        ({
            let (st, expected) = outcome(
                *ast,
                *schema,
                old(interner)@,
                old(diagnostics)@,
                Some(order@),
            );
            &&& is_program(found, expected)
            &&& st.sealed
            &&& final(interner)@ == st.names
            &&& final(diagnostics)@ == st.reports
        }),
        found is Some ==> final(diagnostics)@ == old(diagnostics)@,
        old(diagnostics)@.is_prefix_of(final(diagnostics)@),
{
    flatten_ordered(ast, schema, interner, diagnostics, Some(order))
}

/// The statements' dependency graph, without building a program: what
/// [`reorder`](crate::reorder::reorder) is handed.
pub fn dependencies(
    ast: &Ast,
    schema: &Schema,
    interner: &mut LocalInterner,
    diagnostics: &mut Diagnostics,
) -> (found: Option<Deps>)
    requires
        ast.wf(),
        has_room(*ast, *schema, old(interner)@),
    ensures
        ({
            let (st, expected) = collecting::collected(
                Cx { ast: *ast, schema: *schema },
                beginning(old(interner)@, old(diagnostics)@),
            );
            &&& match (found, expected) {
                (Some(deps), Some(gathered)) => deps.stmts() == gathered.deps,
                (None, None) => true,
                _ => false,
            }
            &&& final(interner)@ == st.names
            &&& final(diagnostics)@ == st.reports
        }),
        old(diagnostics)@.is_prefix_of(final(diagnostics)@),
{
    proof {
        scope::lemma_collected_gathers(
            Cx { ast: *ast, schema: *schema },
            beginning(interner@, diagnostics@),
        );
    }
    let mut flattener = begin(ast, schema, interner, diagnostics);
    let collected = flattener.collect();
    finish(flattener, interner, diagnostics);
    match collected {
        Some(gathered) => Some(gathered.deps),
        None => None,
    }
}

/// Take the interner and the sink for the length of a flattening.
fn begin<'a>(
    ast: &'a Ast,
    schema: &'a Schema,
    interner: &mut LocalInterner,
    diagnostics: &mut Diagnostics,
) -> (flattener: Flattener<'a>)
    requires
        ast.wf(),
    ensures
        flattener.cx() == (Cx { ast: *ast, schema: *schema }),
        flattener.st() == beginning(old(interner)@, old(diagnostics)@),
        flattener.ok(),
        scope::within(flattener.st(), 0),
{
    let mut names = LocalInterner::new(interner.schema().clone());
    let mut sink = Diagnostics::new();
    std::mem::swap(&mut names, interner);
    std::mem::swap(&mut sink, diagnostics);
    Flattener {
        ast,
        schema,
        interner: names,
        diagnostics: sink,
        bindings: Vec::new(),
        compares: Vec::new(),
        hoisted: Vec::new(),
        fetched: Vec::new(),
        constraints: Vec::new(),
        constrained: Vec::new(),
    }
}

/// Hand the interner and the sink back.
fn finish(flattener: Flattener, interner: &mut LocalInterner, diagnostics: &mut Diagnostics)
    ensures
        final(interner)@ == flattener.st().names,
        final(diagnostics)@ == flattener.st().reports,
{
    *interner = flattener.interner;
    *diagnostics = flattener.diagnostics;
}

fn flatten_ordered(
    ast: &Ast,
    schema: &Schema,
    interner: &mut LocalInterner,
    diagnostics: &mut Diagnostics,
    order: Option<&[usize]>,
) -> (found: Option<Program>)
    requires
        ast.wf(),
        has_room(*ast, *schema, old(interner)@),
        order matches Some(given) ==> names_every_statement(
            *ast,
            *schema,
            old(interner)@,
            old(diagnostics)@,
            given@,
        ),
    ensures
        ({
            let (st, expected) = outcome(
                *ast,
                *schema,
                old(interner)@,
                old(diagnostics)@,
                given_order(order),
            );
            &&& is_program(found, expected)
            &&& st.sealed
            &&& final(interner)@ == st.names
            &&& final(diagnostics)@ == st.reports
        }),
        found is Some ==> final(diagnostics)@ == old(diagnostics)@,
        old(diagnostics)@.is_prefix_of(final(diagnostics)@),
{
    let mut flattener = begin(ast, schema, interner, diagnostics);
    let found = flatten_reporting(&mut flattener, order);
    finish(flattener, interner, diagnostics);
    found
}

/// The order a caller gave, if it gave one.
pub open spec fn given_order(order: Option<&[usize]>) -> Option<Seq<usize>> {
    match order {
        Some(given) => Some(given@),
        None => None,
    }
}

/// Collect, choose an order unless one is given, check it, emit.
fn flatten_reporting(flattener: &mut Flattener, order: Option<&[usize]>) -> (found: Option<Program>)
    requires
        old(flattener).ok(),
        old(flattener).st().names.has_room(collecting::query_weight(old(flattener).cx())),
        scope::within(old(flattener).st(), 0),
        order matches Some(given) ==> (collecting::collected(
            old(flattener).cx(),
            old(flattener).st(),
        ).1 matches Some(gathered) ==> given@.len() == gathered.stmts.len()),
    ensures
        ({
            let (st, expected) = emitting::flattened(
                old(flattener).cx(),
                old(flattener).st(),
                given_order(order),
            );
            &&& is_program(found, expected)
            &&& final(flattener).st() == st
        }),
        found is Some ==> final(flattener).st().reports == old(flattener).st().reports,
        scope::grows(old(flattener).st(), final(flattener).st()),
{
    proof {
        scope::lemma_collected_gathers(flattener.cx(), flattener.st());
    }
    let Some(collected) = flattener.collect() else {
        return None;
    };
    let chosen: Vec<usize> = match order {
        Some(given) => vstd::slice::slice_to_vec(given),
        None => choose_order(&collected.deps),
    };
    proof {
        scope::lemma_safety(flattener.cx(), flattener.st(), collected@, chosen@);
    }
    proof {
        scope::lemma_grows(
            old(flattener).st(),
            flattener.st(),
            emitting::safety(flattener.cx(), flattener.st(), collected@, chosen@).st,
        );
    }
    // Over the chosen order, not the collection order: whether a variable is bound
    // before it is read is a property of the order that was picked.
    if !flattener.safe(&collected, &chosen) {
        return None;
    }
    let ghost checked = flattener.st();
    let found = flattener.emit(&collected.stmts, &chosen);
    proof {
        scope::lemma_grows_refl(checked);
        scope::lemma_grows(old(flattener).st(), checked, flattener.st());
    }
    found
}

// ---- laws -------------------------------------------------------------------

/// Whether a flattening declines without a report: the order names a statement there is
/// not, a statement names a predicate the schema lacks, an alias names something that is
/// nowhere, or the head reads a field, a variant or a string that is not there. The order is
/// the caller's; typechecking reports each of the others before a query gets here. A head of
/// a shape that cannot be projected, and a variable nothing binds, are reported.
pub open spec fn declines_quietly(cx: Cx, st: St, given: Option<Seq<usize>>) -> bool {
    let (s1, found) = collecting::collected(cx, st);
    &&& found matches Some(gathered)
    &&& {
        let order = match given {
            Some(order) => order,
            None => reorder::chosen_order(gathered.deps),
        };
        let checked = emitting::safety(cx, s1, gathered, order);
        let (s2, emitted) = emitting::emitted_stmts(
            cx,
            s1,
            gathered.stmts,
            order,
            order.len(),
        );
        ||| checked.broken
        ||| emitted is None
        ||| !heads::aliases_find(cx, s1, gathered.stmts, order)
        ||| !heads::finds(
            cx,
            emitting::before_the_head(cx, s2, emitted->0).0,
            cx.ast.root().head,
        )
    }
}

/// No program without a reason: where there is none, either something was reported or
/// the flattening declined one of the shapes typechecking reports itself.
pub proof fn law_no_program_without_a_reason(
    ast: Ast,
    schema: Schema,
    names: Names,
    reports: Seq<Report>,
    given: Option<Seq<usize>>,
)
    requires
        outcome(ast, schema, names, reports, given).0.sealed,
    ensures
        outcome(ast, schema, names, reports, given).1 is None ==> {
            ||| outcome(ast, schema, names, reports, given).0.reports != reports
            ||| declines_quietly(Cx { ast, schema }, beginning(names, reports), given)
        },
{
    let cx = Cx { ast, schema };
    let st = beginning(names, reports);
    let (s1, found) = collecting::collected(cx, st);
    scope::lemma_collected_gathers(cx, st);
    if let Some(gathered) = found {
        let order = match given {
            Some(order) => order,
            None => reorder::chosen_order(gathered.deps),
        };
        scope::lemma_safety(cx, s1, gathered, order);
        let end = outcome(ast, schema, names, reports, given);
        if end.1 is None && end.0.reports == reports && !declines_quietly(cx, st, given) {
            let (s2, emitted) = emitting::emitted_stmts(
                cx,
                s1,
                gathered.stmts,
                order,
                order.len(),
            );
            let s4 = emitting::before_the_head(cx, s2, emitted->0).0;
            laws::lemma_projected_grow(cx, s4, cx.ast.root().head);
            heads::lemma_emitted_grows(cx, s1, gathered.stmts, order);
            heads::lemma_accepted(cx, st, order);
        }
    }
}

/// Where every step is a scan, the levels are the steps.
proof fn lemma_scans_are_levels(steps: Seq<Step>, i: int)
    requires
        0 <= i <= steps.len(),
        forall|j: int| 0 <= j < steps.len() ==> program::scan_of(#[trigger] steps[j]) is Some,
    ensures
        program::level_count(steps.take(i)) == i,
    decreases i,
{
    if i > 0 {
        lemma_scans_are_levels(steps, i - 1);
        assert(steps.take(i).drop_last() =~= steps.take(i - 1));
        assert(steps.take(i).last() == steps[i - 1]);
        assert(program::scan_of(steps[i - 1]) is Some);
    }
}

/// A flattened program that is a plan is one the machine can run: no two levels bind the
/// same register, every register bound is one of the plan's, and every level reads only
/// the rows of the levels outside it.
pub proof fn law_a_flattened_plan_can_run(program: Program, plan: Plan)
    requires
        program.nvars == program::level_count(program.body@),
        emitting::registers_are_positions(program.body@),
        program::well_scoped(program.body@),
        program::is_plan_of(plan, program),
        program.body@.len() <= usize::MAX,
    ensures
        machine::binds_once(plan.body@),
        iter::binds_registers(plan),
        machine::reads_outer_rows(plan.body@, plan.nvars as nat),
{
    let steps = program.body@;
    let body = plan.body@;
    assert forall|j: int| 0 <= j < steps.len() implies program::scan_of(
        #[trigger] steps[j],
    ) is Some by {
        assert(program::scan_of(steps[j]) == Some(body[j]));
    }
    lemma_scans_are_levels(steps, steps.len() as int);
    assert(steps.take(steps.len() as int) =~= steps);
    assert forall|i: int| 0 <= i < body.len() implies (#[trigger] body[i]).binds@ == seq![
        Address(i as usize),
    ] && forall|address: Address| #[trigger]
        machine::reads(body[i], address) ==> address.0 < i by {
        assert(program::scan_of(steps[i]) == Some(body[i]));
        lemma_scans_are_levels(steps, i);
        assert(program::step_below(steps[i], i as nat));
        let level = steps[i]->Level_0;
        assert(program::source_below(level.sources@[0], i as nat));
        assert forall|address: Address| #[trigger] machine::reads(
            body[i],
            address,
        ) implies address.0 < i by {
            if machine::seek_reads(body[i], address) {
                let parts = body[i].access.seek_key->Composite_0@;
                let n = choose|n: int|
                    0 <= n < parts.len() && machine::part_reads(#[trigger] parts[n], address);
                assert(program::part_below(parts[n], i as nat));
            } else {
                let filters = body[i].residuals@;
                let n = choose|n: int|
                    0 <= n < filters.len() && machine::op_reads(
                        (#[trigger] filters[n]).op,
                        address,
                    );
                assert(program::op_below(filters[n].op, i as nat));
            }
        }
    }
    assert forall|i: int, j: int, address: Address|
        #![trigger body[i].binds@.contains(address), body[j].binds@.contains(address)]
        0 <= i < j < body.len() && body[i].binds@.contains(
            address,
        ) implies !body[j].binds@.contains(address) by {
        assert(body[i].binds@ == seq![Address(i as usize)]);
        assert(body[j].binds@ == seq![Address(j as usize)]);
    }
    assert forall|i: int| 0 <= i < body.len() implies machine::stray(
        (#[trigger] body[i]).binds@,
        plan.nvars as nat,
        0,
    ) is None by {
        assert(body[i].binds@ == seq![Address(i as usize)]);
        reveal_with_fuel(machine::stray, 2);
    }
}

} // verus!
