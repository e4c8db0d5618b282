//! The rows of a body, however its statements are nested: one for each way to choose a fact
//! for every statement that ranges over facts.
use vstd::multiset::Multiset;
use vstd::prelude::*;

use super::{Found, World};
use crate::flatten::model::{Alt, Gen, Stmt};
use crate::plan::Fact;
use crate::reading;
use crate::reorder;
use crate::tuple::Datum;

verus! {

// ---- rows, summed over what a statement matches -----------------------------

/// The rows of a query, however often each comes, in no order.
pub type Rows = Multiset<Option<Datum>>;

/// An alternative and a fact it may match.
pub type Choice = (Alt, Fact);

/// The rows of all of some choices.
pub open spec fn sum(cs: Seq<Choice>, f: spec_fn(Choice) -> Rows) -> Rows
    decreases cs.len(),
{
    if cs.len() == 0 {
        Multiset::empty()
    } else {
        f(cs[0]).add(sum(cs.skip(1), f))
    }
}

proof fn lemma_sum_same(
    cs: Seq<Choice>,
    f: spec_fn(Choice) -> Rows,
    g: spec_fn(Choice) -> Rows,
)
    requires
        forall|i: int| 0 <= i < cs.len() ==> f(#[trigger] cs[i]) == g(cs[i]),
    ensures
        sum(cs, f) == sum(cs, g),
    decreases cs.len(),
{
    if cs.len() > 0 {
        let rest = cs.skip(1);
        assert forall|i: int| 0 <= i < rest.len() implies f(#[trigger] rest[i]) == g(rest[i]) by {
            assert(rest[i] == cs[i + 1]);
        }
        lemma_sum_same(rest, f, g);
    }
}

proof fn lemma_sum_empty(cs: Seq<Choice>, f: spec_fn(Choice) -> Rows)
    requires
        forall|i: int| 0 <= i < cs.len() ==> f(#[trigger] cs[i]) == Multiset::<
            Option<Datum>,
        >::empty(),
    ensures
        sum(cs, f) == Multiset::<Option<Datum>>::empty(),
    decreases cs.len(),
{
    if cs.len() > 0 {
        let rest = cs.skip(1);
        assert forall|i: int| 0 <= i < rest.len() implies f(#[trigger] rest[i]) == Multiset::<
            Option<Datum>,
        >::empty() by {
            assert(rest[i] == cs[i + 1]);
        }
        lemma_sum_empty(rest, f);
        assert(f(cs[0]).add(sum(rest, f)) =~= Multiset::<Option<Datum>>::empty());
    }
}

proof fn lemma_sum_concat(a: Seq<Choice>, b: Seq<Choice>, f: spec_fn(Choice) -> Rows)
    ensures
        sum(a + b, f) == sum(a, f).add(sum(b, f)),
    decreases a.len(),
{
    if a.len() == 0 {
        assert(a + b =~= b);
        assert(sum(a, f).add(sum(b, f)) =~= sum(b, f));
    } else {
        lemma_sum_concat(a.skip(1), b, f);
        assert((a + b).skip(1) =~= a.skip(1) + b);
        assert((a + b)[0] == a[0]);
        assert(sum(a + b, f) =~= sum(a, f).add(sum(b, f)));
    }
}

proof fn lemma_sum_both(
    cs: Seq<Choice>,
    f: spec_fn(Choice) -> Rows,
    g: spec_fn(Choice) -> Rows,
)
    ensures
        sum(cs, |c: Choice| f(c).add(g(c))) == sum(cs, f).add(sum(cs, g)),
    decreases cs.len(),
{
    let both = |c: Choice| f(c).add(g(c));
    if cs.len() == 0 {
        assert(sum(cs, f).add(sum(cs, g)) =~= Multiset::<Option<Datum>>::empty());
    } else {
        lemma_sum_both(cs.skip(1), f, g);
        assert(both(cs[0]) == f(cs[0]).add(g(cs[0])));
        assert(sum(cs, both) =~= sum(cs, f).add(sum(cs, g)));
    }
}

/// Two nested sums, the one inside the other either way.
proof fn lemma_sum_swap(
    cs: Seq<Choice>,
    ds: Seq<Choice>,
    h: spec_fn(Choice, Choice) -> Rows,
)
    ensures
        sum(cs, |c: Choice| sum(ds, |d: Choice| h(c, d))) == sum(
            ds,
            |d: Choice| sum(cs, |c: Choice| h(c, d)),
        ),
    decreases cs.len(),
{
    let by_c = |c: Choice| sum(ds, |d: Choice| h(c, d));
    let by_d = |d: Choice| sum(cs, |c: Choice| h(c, d));
    if cs.len() == 0 {
        lemma_sum_empty(ds, by_d);
    } else {
        let rest = cs.skip(1);
        lemma_sum_swap(rest, ds, h);
        let first = |d: Choice| h(cs[0], d);
        let others = |d: Choice| sum(rest, |c: Choice| h(c, d));
        lemma_sum_both(ds, first, others);
        assert forall|i: int| 0 <= i < ds.len() implies by_d(#[trigger] ds[i]) == (|d: Choice|
            first(d).add(others(d)))(ds[i]) by {
            let inner = |c: Choice| h(c, ds[i]);
            assert(by_d(ds[i]) == sum(cs, inner));
            assert(sum(cs, inner) == inner(cs[0]).add(sum(rest, inner)));
        }
        lemma_sum_same(ds, by_d, |d: Choice| first(d).add(others(d)));
        assert(by_c(cs[0]) == sum(ds, first));
    }
}

/// Everything some alternatives may match.
pub open spec fn choices(alts: Seq<Alt>, facts: Seq<Fact>) -> Seq<Choice>
    decreases alts.len(),
{
    if alts.len() == 0 {
        Seq::empty()
    } else {
        facts.map_values(|fact: Fact| (alts[0], fact)) + choices(alts.skip(1), facts)
    }
}

pub proof fn lemma_choices(alts: Seq<Alt>, facts: Seq<Fact>)
    ensures
        forall|i: int|
            0 <= i < choices(alts, facts).len() ==> alts.contains(
                (#[trigger] choices(alts, facts)[i]).0,
            ) && facts.contains(choices(alts, facts)[i].1),
    decreases alts.len(),
{
    if alts.len() > 0 {
        let rest = alts.skip(1);
        lemma_choices(rest, facts);
        let here = facts.map_values(|fact: Fact| (alts[0], fact));
        let all = choices(alts, facts);
        assert forall|i: int| 0 <= i < all.len() implies alts.contains((#[trigger] all[i]).0)
            && facts.contains(all[i].1) by {
            if i < here.len() {
                assert(all[i] == (alts[0], facts[i]));
            } else {
                let c = choices(rest, facts)[i - here.len()];
                assert(all[i] == c);
                let j = choose|j: int| 0 <= j < rest.len() && rest[j] == c.0;
                assert(alts[j + 1] == c.0);
            }
        }
    }
}

// ---- choosing a fact for every statement ------------------------------------

/// The alternative and the fact that each statement over facts is on.
pub type Choices = spec_fn(usize) -> Choice;

/// The same, but for one statement.
pub open spec fn with(c: Choices, at: usize, choice: Choice) -> Choices {
    |i: usize|
        if i == at {
            choice
        } else {
            c(i)
        }
}

/// What some choices come to, `k` statements on, if nothing stands against them.
pub open spec fn reach(
    w: World,
    stmts: Seq<Stmt>,
    order: Seq<usize>,
    k: nat,
    found: Found,
    c: Choices,
) -> Option<Found>
    decreases k,
{
    if k == 0 {
        Some(found)
    } else {
        match reach(w, stmts, order, (k - 1) as nat, found, c) {
            Some(before) => on(w, stmts[order[k - 1] as int], before, c(order[k - 1])),
            None => None,
        }
    }
}

/// One statement on.
pub open spec fn on(w: World, stmt: Stmt, found: Found, choice: Choice) -> Option<Found> {
    match stmt {
        Stmt::Scan(scan) => if reading::matches(w, found.sense, choice.0, choice.1) {
            Some(reading::with_fact(w, found, scan, choice.0, choice.1))
        } else {
            None
        },
        Stmt::Negate(tested) => if reading::denied(w, found.sense, tested.alternatives@) {
            Some(found)
        } else {
            None
        },
        Stmt::Alias(alias) => Some(
            match reading::thing_of(w, found.sense, alias.value) {
                Some(thing) => reading::with_name(w, found, alias.pattern, thing),
                None => found,
            },
        ),
        Stmt::Constrain(_) => Some(found),
    }
}

/// The row of a reading, if it is an answer.
pub open spec fn row_of(w: World, found: Option<Found>) -> Rows {
    match found {
        Some(way) => if reading::kept(w, way) {
            Multiset::singleton(reading::value(w, way.sense, w.cx.ast.root().head))
        } else {
            Multiset::empty()
        },
        None => Multiset::empty(),
    }
}

/// What an order makes of some choices.
pub open spec fn leaf(
    w: World,
    stmts: Seq<Stmt>,
    order: Seq<usize>,
    found: Found,
) -> spec_fn(Choices) -> Rows {
    |c: Choices| row_of(w, reach(w, stmts, order, order.len(), found, c))
}

/// The rows of every way to choose for some statements, one inside another.
pub open spec fn nest(
    w: World,
    stmts: Seq<Stmt>,
    list: Seq<usize>,
    c: Choices,
    g: spec_fn(Choices) -> Rows,
) -> Rows
    decreases list.len(), 1nat,
{
    if list.len() == 0 {
        g(c)
    } else {
        match stmts[list[0] as int] {
            Stmt::Scan(scan) => sum(
                choices(scan.alternatives@, w.facts),
                inside(w, stmts, list, c, g),
            ),
            _ => nest(w, stmts, list.skip(1), c, g),
        }
    }
}

/// Those of one choice for the first of the statements.
pub open spec fn inside(
    w: World,
    stmts: Seq<Stmt>,
    list: Seq<usize>,
    c: Choices,
    g: spec_fn(Choices) -> Rows,
) -> spec_fn(Choice) -> Rows
    decreases list.len(), 0nat,
{
    |choice: Choice|
        if list.len() == 0 {
            Multiset::empty()
        } else {
            nest(w, stmts, list.skip(1), with(c, list[0], choice), g)
        }
}

/// Some choices are ones the statements have.
pub open spec fn offered(w: World, stmts: Seq<Stmt>, list: Seq<usize>, c: Choices) -> bool {
    forall|i: int|
        0 <= i < list.len() ==> (stmts[(#[trigger] list[i]) as int] matches Stmt::Scan(scan)
            ==> choices(scan.alternatives@, w.facts).contains(c(list[i])))
}

/// Nests of what is the same for all the choices the statements have.
proof fn lemma_nest_same(
    w: World,
    stmts: Seq<Stmt>,
    done: Seq<usize>,
    list: Seq<usize>,
    c: Choices,
    f: spec_fn(Choices) -> Rows,
    g: spec_fn(Choices) -> Rows,
)
    requires
        (done + list).no_duplicates(),
        offered(w, stmts, done, c),
        forall|d: Choices| offered(w, stmts, done + list, d) ==> #[trigger] f(d) == g(d),
    ensures
        nest(w, stmts, list, c, f) == nest(w, stmts, list, c, g),
    decreases list.len(),
{
    let all = done + list;
    if list.len() == 0 {
        assert(all =~= done);
        assert(f(c) == g(c));
    } else {
        let at = list[0];
        let more = done.push(at);
        assert(more + list.skip(1) =~= all);
        assert(all[done.len() as int] == at);
        match stmts[at as int] {
            Stmt::Scan(scan) => {
                let cs = choices(scan.alternatives@, w.facts);
                let (x, y) = (inside(w, stmts, list, c, f), inside(w, stmts, list, c, g));
                assert forall|i: int| 0 <= i < cs.len() implies x(#[trigger] cs[i]) == y(
                    cs[i],
                ) by {
                    let d = with(c, at, cs[i]);
                    assert(offered(w, stmts, more, d)) by {
                        assert forall|j: int| 0 <= j < more.len() implies (stmts[(
                        #[trigger] more[j]) as int] matches Stmt::Scan(other) ==> choices(
                            other.alternatives@,
                            w.facts,
                        ).contains(d(more[j]))) by {
                            if j < done.len() {
                                assert(more[j] == done[j]);
                                assert(all[j] == done[j]);
                                assert(d(more[j]) == c(done[j]));
                            } else {
                                assert(cs.contains(cs[i]));
                            }
                        }
                    }
                    lemma_nest_same(w, stmts, more, list.skip(1), d, f, g);
                }
                lemma_sum_same(cs, x, y);
            },
            _ => {
                assert(offered(w, stmts, more, c)) by {
                    assert forall|j: int| 0 <= j < more.len() implies (stmts[(
                    #[trigger] more[j]) as int] matches Stmt::Scan(other) ==> choices(
                        other.alternatives@,
                        w.facts,
                    ).contains(c(more[j]))) by {
                        if j < done.len() {
                            assert(more[j] == done[j]);
                        }
                    }
                }
                lemma_nest_same(w, stmts, more, list.skip(1), c, f, g);
            },
        }
    }
}

/// Two statements, the one nested in the other either way.
#[verifier::rlimit(30)]
proof fn lemma_nest_swap(
    w: World,
    stmts: Seq<Stmt>,
    x: usize,
    y: usize,
    rest: Seq<usize>,
    c: Choices,
    g: spec_fn(Choices) -> Rows,
)
    requires
        x != y,
    ensures
        nest(w, stmts, seq![x, y] + rest, c, g) == nest(w, stmts, seq![y, x] + rest, c, g),
{
    let (a, b) = (seq![x, y] + rest, seq![y, x] + rest);
    assert(a.skip(1) =~= seq![y] + rest);
    assert(b.skip(1) =~= seq![x] + rest);
    assert(a.skip(1).skip(1) =~= rest);
    assert(b.skip(1).skip(1) =~= rest);
    assert(a[0] == x && b[0] == y && a.skip(1)[0] == y && b.skip(1)[0] == x);
    match (stmts[x as int], stmts[y as int]) {
        (Stmt::Scan(p), Stmt::Scan(q)) => {
            let cs = choices(p.alternatives@, w.facts);
            let ds = choices(q.alternatives@, w.facts);
            let h = |m: Choice, n: Choice|
                nest(w, stmts, rest, with(with(c, x, m), y, n), g);
            lemma_sum_swap(cs, ds, h);
            let f1 = inside(w, stmts, a, c, g);
            let f2 = |m: Choice| sum(ds, |n: Choice| h(m, n));
            assert forall|i: int| 0 <= i < cs.len() implies f1(#[trigger] cs[i]) == f2(cs[i]) by {
                let u = inside(w, stmts, a.skip(1), with(c, x, cs[i]), g);
                let v = |n: Choice| h(cs[i], n);
                assert(f1(cs[i]) == sum(ds, u));
                lemma_sum_same(ds, u, v);
            }
            lemma_sum_same(cs, f1, f2);
            let e1 = inside(w, stmts, b, c, g);
            let e2 = |n: Choice| sum(cs, |m: Choice| h(m, n));
            assert forall|i: int| 0 <= i < ds.len() implies e1(#[trigger] ds[i]) == e2(ds[i]) by {
                let u = inside(w, stmts, b.skip(1), with(c, y, ds[i]), g);
                let v = |m: Choice| h(m, ds[i]);
                assert(e1(ds[i]) == sum(cs, u));
                assert forall|j: int| 0 <= j < cs.len() implies u(#[trigger] cs[j]) == v(cs[j]) by {
                    assert(with(with(c, y, ds[i]), x, cs[j]) =~= with(
                        with(c, x, cs[j]),
                        y,
                        ds[i],
                    ));
                }
                lemma_sum_same(cs, u, v);
            }
            lemma_sum_same(ds, e1, e2);
        },
        (Stmt::Scan(p), _) => {
            let cs = choices(p.alternatives@, w.facts);
            let (f1, f2) = (inside(w, stmts, a, c, g), inside(w, stmts, b.skip(1), c, g));
            assert forall|i: int| 0 <= i < cs.len() implies f1(#[trigger] cs[i]) == f2(cs[i]) by {
                assert(nest(w, stmts, a.skip(1), with(c, x, cs[i]), g) == nest(
                    w,
                    stmts,
                    rest,
                    with(c, x, cs[i]),
                    g,
                ));
            }
            lemma_sum_same(cs, f1, f2);
            assert(nest(w, stmts, b, c, g) == nest(w, stmts, b.skip(1), c, g));
        },
        (_, Stmt::Scan(q)) => {
            let ds = choices(q.alternatives@, w.facts);
            let (f1, f2) = (inside(w, stmts, b, c, g), inside(w, stmts, a.skip(1), c, g));
            assert forall|i: int| 0 <= i < ds.len() implies f1(#[trigger] ds[i]) == f2(ds[i]) by {
                assert(nest(w, stmts, b.skip(1), with(c, y, ds[i]), g) == nest(
                    w,
                    stmts,
                    rest,
                    with(c, y, ds[i]),
                    g,
                ));
            }
            lemma_sum_same(ds, f1, f2);
            assert(nest(w, stmts, a, c, g) == nest(w, stmts, a.skip(1), c, g));
        },
        _ => {
            assert(nest(w, stmts, a, c, g) == nest(w, stmts, a.skip(1), c, g));
            assert(nest(w, stmts, b, c, g) == nest(w, stmts, b.skip(1), c, g));
            assert(nest(w, stmts, a.skip(1), c, g) == nest(w, stmts, rest, c, g));
            assert(nest(w, stmts, b.skip(1), c, g) == nest(w, stmts, rest, c, g));
        },
    }
}

/// Nests that are the same one statement in.
proof fn lemma_nest_inside(
    w: World,
    stmts: Seq<Stmt>,
    x: usize,
    a: Seq<usize>,
    b: Seq<usize>,
    c: Choices,
    g: spec_fn(Choices) -> Rows,
)
    requires
        forall|d: Choices| #[trigger] nest(w, stmts, a, d, g) == nest(w, stmts, b, d, g),
    ensures
        nest(w, stmts, seq![x] + a, c, g) == nest(w, stmts, seq![x] + b, c, g),
{
    let (p, q) = (seq![x] + a, seq![x] + b);
    assert(p.skip(1) =~= a);
    assert(q.skip(1) =~= b);
    assert(p[0] == x && q[0] == x);
    if let Stmt::Scan(scan) = stmts[x as int] {
        let cs = choices(scan.alternatives@, w.facts);
        let (f1, f2) = (inside(w, stmts, p, c, g), inside(w, stmts, q, c, g));
        assert forall|i: int| 0 <= i < cs.len() implies f1(#[trigger] cs[i]) == f2(cs[i]) by {
            let d = with(c, x, cs[i]);
            assert(nest(w, stmts, a, d, g) == nest(w, stmts, b, d, g));
        }
        lemma_sum_same(cs, f1, f2);
    } else {
        assert(nest(w, stmts, a, c, g) == nest(w, stmts, b, c, g));
    }
}

/// A statement taken to the front.
proof fn lemma_nest_pull(
    w: World,
    stmts: Seq<Stmt>,
    list: Seq<usize>,
    i: int,
    c: Choices,
    g: spec_fn(Choices) -> Rows,
)
    requires
        list.no_duplicates(),
        0 <= i < list.len(),
    ensures
        nest(w, stmts, list, c, g) == nest(w, stmts, seq![list[i]] + list.remove(i), c, g),
    decreases i,
{
    if i == 0 {
        assert(seq![list[0]] + list.remove(0) =~= list);
    } else {
        let (x, y) = (list[0], list[i]);
        let rest = list.skip(1);
        let less = rest.remove(i - 1);
        assert(rest[i - 1] == y);
        assert(rest.no_duplicates());
        assert forall|d: Choices| #[trigger] nest(w, stmts, rest, d, g) == nest(
            w,
            stmts,
            seq![y] + less,
            d,
            g,
        ) by {
            lemma_nest_pull(w, stmts, rest, i - 1, d, g);
        }
        lemma_nest_inside(w, stmts, x, rest, seq![y] + less, c, g);
        assert(list =~= seq![x] + rest);
        assert(seq![x] + (seq![y] + less) =~= seq![x, y] + less);
        lemma_nest_swap(w, stmts, x, y, less, c, g);
        assert(seq![y, x] + less =~= seq![y] + list.remove(i));
    }
}

/// However some statements are nested.
proof fn lemma_nest_any(
    w: World,
    stmts: Seq<Stmt>,
    one: Seq<usize>,
    other: Seq<usize>,
    c: Choices,
    g: spec_fn(Choices) -> Rows,
)
    requires
        one.no_duplicates(),
        other.no_duplicates(),
        forall|k: usize| one.contains(k) == other.contains(k),
    ensures
        nest(w, stmts, one, c, g) == nest(w, stmts, other, c, g),
    decreases one.len(),
{
    if one.len() == 0 {
        if other.len() > 0 {
            assert(other.contains(other[0]));
        }
        assert(one =~= other);
    } else {
        assert(one.contains(one[0]));
        let i = choose|i: int| 0 <= i < other.len() && other[i] == one[0];
        lemma_shorter(one, other, i);
        let (a, b) = (one.skip(1), other.remove(i));
        assert forall|d: Choices| #[trigger] nest(w, stmts, a, d, g) == nest(
            w,
            stmts,
            b,
            d,
            g,
        ) by {
            lemma_nest_any(w, stmts, a, b, d, g);
        }
        lemma_nest_inside(w, stmts, one[0], a, b, c, g);
        assert(seq![one[0]] + a =~= one);
        lemma_nest_pull(w, stmts, other, i, c, g);
    }
}

proof fn lemma_shorter(one: Seq<usize>, other: Seq<usize>, i: int)
    requires
        one.no_duplicates(),
        other.no_duplicates(),
        forall|k: usize| one.contains(k) == other.contains(k),
        one.len() > 0,
        0 <= i < other.len(),
        other[i] == one[0],
    ensures
        one.skip(1).no_duplicates(),
        other.remove(i).no_duplicates(),
        forall|k: usize| one.skip(1).contains(k) == other.remove(i).contains(k),
{
    let (shorter, left) = (one.skip(1), other.remove(i));
    assert forall|k: usize| shorter.contains(k) == (one.contains(k) && k != one[0]) by {
        if shorter.contains(k) {
            let j = choose|j: int| 0 <= j < shorter.len() && shorter[j] == k;
            assert(one[j + 1] == k);
        }
        if one.contains(k) && k != one[0] {
            let j = choose|j: int| 0 <= j < one.len() && one[j] == k;
            assert(shorter[j - 1] == k);
        }
    }
    assert forall|k: usize| left.contains(k) == (other.contains(k) && k != other[i]) by {
        if left.contains(k) {
            let j = choose|j: int| 0 <= j < left.len() && left[j] == k;
            if j < i {
                assert(other[j] == k);
            } else {
                assert(other[j + 1] == k);
            }
        }
        if other.contains(k) && k != other[i] {
            let j = choose|j: int| 0 <= j < other.len() && other[j] == k;
            if j < i {
                assert(left[j] == k);
            } else {
                assert(left[j - 1] == k);
            }
        }
    }
}

// ---- the rows of what statements mean ---------------------------------------

/// The rows some readings give, in no order.
pub open spec fn rows(w: World, ways: Seq<Found>) -> Rows {
    ways.map_values(
        |way: Found| reading::value(w, way.sense, w.cx.ast.root().head),
    ).to_multiset()
}

/// The readings that are answers.
pub open spec fn answers(w: World, ways: Seq<Found>) -> Seq<Found> {
    ways.filter(|way: Found| reading::kept(w, way))
}

pub proof fn lemma_rows_more(w: World, a: Seq<Found>, b: Seq<Found>)
    ensures
        rows(w, answers(w, a + b)) == rows(w, answers(w, a)).add(rows(w, answers(w, b))),
{
    let kept = |way: Found| reading::kept(w, way);
    let said = |way: Found| reading::value(w, way.sense, w.cx.ast.root().head);
    Seq::<Found>::filter_distributes_over_add(a, b, kept);
    let (x, y) = (answers(w, a), answers(w, b));
    assert((x + y).map_values(said) =~= x.map_values(said) + y.map_values(said));
    vstd::seq_lib::lemma_multiset_commutative(x.map_values(said), y.map_values(said));
}

proof fn lemma_rows_none(w: World)
    ensures
        rows(w, answers(w, Seq::empty())) == Multiset::<Option<Datum>>::empty(),
{
    reveal(Seq::filter);
    broadcast use vstd::seq_lib::group_to_multiset_ensures;
    let none = Seq::<Found>::empty();
    assert(answers(w, none) =~= none);
    let said = none.map_values(
        |way: Found| reading::value(w, way.sense, w.cx.ast.root().head),
    );
    assert(said =~= Seq::empty());
    assert(said.to_multiset().len() == 0);
    assert(said.to_multiset() =~= Multiset::<Option<Datum>>::empty());
}

proof fn lemma_rows_one(w: World, found: Found)
    ensures
        rows(w, answers(w, seq![found])) == row_of(w, Some(found)),
{
    reveal_with_fuel(Seq::filter, 2);
    broadcast use vstd::seq_lib::group_to_multiset_ensures;
    let one = seq![found];
    let none = Seq::<Found>::empty();
    assert(one.drop_last() =~= none);
    lemma_rows_none(w);
    if reading::kept(w, found) {
        assert(answers(w, one) =~= one);
        let said = one.map_values(
            |way: Found| reading::value(w, way.sense, w.cx.ast.root().head),
        );
        let v = reading::value(w, found.sense, w.cx.ast.root().head);
        let empty = Seq::<Option<Datum>>::empty();
        assert(said =~= empty.push(v));
        assert(empty.to_multiset().len() == 0);
        assert(empty.to_multiset() =~= Multiset::<Option<Datum>>::empty());
        assert(said.to_multiset() =~= empty.to_multiset().insert(v));
        assert(said.to_multiset() =~= Multiset::singleton(v));
    } else {
        assert(answers(w, one) =~= none);
    }
}

/// What is reached does not turn on choices for statements to come.
proof fn lemma_reach_same(
    w: World,
    stmts: Seq<Stmt>,
    order: Seq<usize>,
    k: nat,
    found: Found,
    c: Choices,
    d: Choices,
)
    requires
        k <= order.len(),
        forall|i: int| 0 <= i < k ==> c(#[trigger] order[i]) == d(order[i]),
    ensures
        reach(w, stmts, order, k, found, c) == reach(w, stmts, order, k, found, d),
    decreases k,
{
    if k > 0 {
        lemma_reach_same(w, stmts, order, (k - 1) as nat, found, c, d);
        assert(c(order[k - 1]) == d(order[k - 1]));
    }
}

/// Nothing comes of choices that something stands against.
proof fn lemma_nest_none(
    w: World,
    stmts: Seq<Stmt>,
    order: Seq<usize>,
    k: nat,
    found: Found,
    c: Choices,
)
    requires
        k <= order.len(),
        order.no_duplicates(),
        reach(w, stmts, order, k, found, c) is None,
    ensures
        nest(w, stmts, order.skip(k as int), c, leaf(w, stmts, order, found)) == Multiset::<
            Option<Datum>,
        >::empty(),
    decreases order.len() - k,
{
    let g = leaf(w, stmts, order, found);
    let list = order.skip(k as int);
    if k < order.len() {
        let at = order[k as int];
        assert(list[0] == at);
        assert(list.skip(1) =~= order.skip(k as int + 1));
        match stmts[at as int] {
            Stmt::Scan(scan) => {
                let cs = choices(scan.alternatives@, w.facts);
                let f = inside(w, stmts, list, c, g);
                assert forall|i: int| 0 <= i < cs.len() implies f(#[trigger] cs[i])
                    == Multiset::<Option<Datum>>::empty() by {
                    let d = with(c, at, cs[i]);
                    assert forall|j: int| 0 <= j < k implies c(#[trigger] order[j]) == d(
                        order[j],
                    ) by {
                        assert(order[j] != order[k as int]);
                    }
                    lemma_reach_same(w, stmts, order, k, found, c, d);
                    lemma_nest_none(w, stmts, order, k + 1, found, d);
                }
                lemma_sum_empty(cs, f);
            },
            _ => lemma_nest_none(w, stmts, order, k + 1, found, c),
        }
    }
}

/// The rows of the ways to read some statements.
proof fn lemma_ways(
    w: World,
    stmts: Seq<Stmt>,
    order: Seq<usize>,
    k: nat,
    begun: Found,
    found: Found,
    c: Choices,
)
    requires
        k <= order.len(),
        order.no_duplicates(),
        reach(w, stmts, order, k, begun, c) == Some(found),
    ensures
        rows(w, answers(w, reading::ways(w, stmts, order, k, found))) == nest(
            w,
            stmts,
            order.skip(k as int),
            c,
            leaf(w, stmts, order, begun),
        ),
    decreases order.len() - k, 2nat, 0nat,
{
    let g = leaf(w, stmts, order, begun);
    let list = order.skip(k as int);
    if k == order.len() {
        assert(list =~= Seq::empty());
        lemma_rows_one(w, found);
    } else {
        let at = order[k as int];
        let stmt = stmts[at as int];
        assert(list[0] == at);
        assert(list.skip(1) =~= order.skip(k as int + 1));
        match stmt {
            Stmt::Scan(scan) => lemma_over_alts(
                w,
                stmts,
                order,
                k,
                begun,
                found,
                c,
                scan.alternatives@,
                scan,
            ),
            _ => {
                let next = on(w, stmt, found, c(at));
                assert(reach(w, stmts, order, k + 1, begun, c) == next);
                match next {
                    Some(more) => lemma_ways(w, stmts, order, k + 1, begun, more, c),
                    None => {
                        lemma_rows_none(w);
                        lemma_nest_none(w, stmts, order, k + 1, begun, c);
                    },
                }
            },
        }
    }
}

proof fn lemma_over_alts(
    w: World,
    stmts: Seq<Stmt>,
    order: Seq<usize>,
    k: nat,
    begun: Found,
    found: Found,
    c: Choices,
    alts: Seq<Alt>,
    scan: Gen,
)
    requires
        k < order.len(),
        order.no_duplicates(),
        stmts[order[k as int] as int] == Stmt::Scan(scan),
        reach(w, stmts, order, k, begun, c) == Some(found),
    ensures
        rows(w, answers(w, reading::over_alts(w, stmts, order, k, found, alts, scan))) == sum(
            choices(alts, w.facts),
            inside(w, stmts, order.skip(k as int), c, leaf(w, stmts, order, begun)),
        ),
    decreases order.len() - k, 1nat, alts.len(),
{
    let f = inside(w, stmts, order.skip(k as int), c, leaf(w, stmts, order, begun));
    if alts.len() == 0 {
        lemma_rows_none(w);
    } else {
        let alt = alts[0];
        lemma_over_facts(w, stmts, order, k, begun, found, c, alt, scan, w.facts);
        lemma_over_alts(w, stmts, order, k, begun, found, c, alts.skip(1), scan);
        lemma_rows_more(
            w,
            reading::over_facts(
                w,
                stmts,
                order,
                k,
                found,
                alt,
                scan,
                reading::matched(w, found.sense, alt),
            ),
            reading::over_alts(w, stmts, order, k, found, alts.skip(1), scan),
        );
        lemma_sum_concat(
            w.facts.map_values(|fact: Fact| (alt, fact)),
            choices(alts.skip(1), w.facts),
            f,
        );
    }
}

#[verifier::rlimit(40)]
proof fn lemma_over_facts(
    w: World,
    stmts: Seq<Stmt>,
    order: Seq<usize>,
    k: nat,
    begun: Found,
    found: Found,
    c: Choices,
    alt: Alt,
    scan: Gen,
    facts: Seq<Fact>,
)
    requires
        k < order.len(),
        order.no_duplicates(),
        stmts[order[k as int] as int] == Stmt::Scan(scan),
        reach(w, stmts, order, k, begun, c) == Some(found),
    ensures
        rows(
            w,
            answers(
                w,
                reading::over_facts(
                    w,
                    stmts,
                    order,
                    k,
                    found,
                    alt,
                    scan,
                    facts.filter(|fact: Fact| reading::matches(w, found.sense, alt, fact)),
                ),
            ),
        ) == sum(
            facts.map_values(|fact: Fact| (alt, fact)),
            inside(w, stmts, order.skip(k as int), c, leaf(w, stmts, order, begun)),
        ),
    decreases order.len() - k, 0nat, facts.len(),
{
    let f = inside(w, stmts, order.skip(k as int), c, leaf(w, stmts, order, begun));
    let matches = |fact: Fact| reading::matches(w, found.sense, alt, fact);
    let pair = |fact: Fact| (alt, fact);
    if facts.len() == 0 {
        reveal(Seq::filter);
        lemma_rows_none(w);
    } else {
        let (first, rest) = (facts[0], facts.skip(1));
        lemma_over_facts(w, stmts, order, k, begun, found, c, alt, scan, rest);
        let one = seq![first];
        assert(facts =~= one + rest);
        Seq::<Fact>::filter_distributes_over_add(one, rest, matches);
        let all = facts.map_values(pair);
        assert(all[0] == (alt, first));
        assert(all.skip(1) =~= rest.map_values(pair));
        let left = rest.filter(matches);
        assert(one.drop_last() =~= Seq::<Fact>::empty());
        assert(one.filter(matches) =~= (if matches(first) {
            one
        } else {
            Seq::empty()
        })) by {
            reveal_with_fuel(Seq::filter, 2);
        }
        let at = order[k as int];
        let d = with(c, at, (alt, first));
        assert forall|j: int| 0 <= j < k implies c(#[trigger] order[j]) == d(order[j]) by {
            assert(order[j] != order[k as int]);
        }
        lemma_reach_same(w, stmts, order, k, begun, c, d);
        assert(order.skip(k as int)[0] == at);
        assert(order.skip(k as int).skip(1) =~= order.skip(k as int + 1));
        if matches(first) {
            let list = one + left;
            assert(facts.filter(matches) == list);
            assert(list[0] == first);
            assert(list.skip(1) =~= left);
            let more = reading::with_fact(w, found, scan, alt, first);
            assert(reach(w, stmts, order, k + 1, begun, d) == Some(more));
            lemma_ways(w, stmts, order, k + 1, begun, more, d);
            lemma_rows_more(
                w,
                reading::ways(w, stmts, order, k + 1, more),
                reading::over_facts(w, stmts, order, k, found, alt, scan, left),
            );
        } else {
            assert(facts.filter(matches) =~= left);
            assert(reach(w, stmts, order, k + 1, begun, d) is None);
            lemma_nest_none(w, stmts, order, k + 1, begun, d);
            assert(f(all[0]) == Multiset::<Option<Datum>>::empty());
            assert(sum(all, f) =~= sum(all.skip(1), f));
        }
    }
}

/// An order of all statements names each of them.
pub proof fn lemma_names_all(n: nat, order: Seq<usize>, k: usize)
    requires
        reorder::is_order(n, order),
    ensures
        order.contains(k) == (k < n),
{
    if order.contains(k) {
        let i = choose|i: int| 0 <= i < order.len() && order[i] == k;
        assert(order[i] < n);
    }
    let wide = order.map_values(|i: usize| i as int);
    assert forall|i: int, j: int| 0 <= i < wide.len() && 0 <= j < wide.len() && i != j implies wide[i]
        != wide[j] by {
        assert(order[i] != order[j]);
    }
    wide.unique_seq_to_set();
    let all = vstd::set_lib::set_int_range(0, n as int);
    vstd::set_lib::lemma_int_range(0, n as int);
    assert(wide.to_set().subset_of(all)) by {
        assert forall|x: int| wide.to_set().contains(x) implies all.contains(x) by {
            let i = choose|i: int| 0 <= i < wide.len() && wide[i] == x;
            assert(order[i] < n);
        }
    }
    vstd::seq_lib::seq_to_set_is_finite(wide);
    vstd::set_lib::lemma_subset_equality(wide.to_set(), all);
    if k < n {
        assert(all.contains(k as int));
        assert(wide.contains(k as int));
        let i = choose|i: int| 0 <= i < wide.len() && wide[i] == k as int;
        assert(order[i] == k);
    }
}

/// Two orders have the same rows where they make the same of the same choices.
pub proof fn lemma_same_rows(
    w: World,
    stmts: Seq<Stmt>,
    one: Seq<usize>,
    other: Seq<usize>,
    found: Found,
)
    requires
        reorder::is_order(stmts.len(), one),
        reorder::is_order(stmts.len(), other),
        forall|c: Choices|
            offered(w, stmts, one, c) ==> #[trigger] leaf(w, stmts, one, found)(c) == leaf(
                w,
                stmts,
                other,
                found,
            )(c),
    ensures
        rows(w, reading::meant(w, stmts, one, found)) == rows(
            w,
            reading::meant(w, stmts, other, found),
        ),
{
    let c: Choices = arbitrary();
    assert(one.no_duplicates());
    assert(other.no_duplicates());
    assert(one.skip(0) =~= one);
    assert(other.skip(0) =~= other);
    lemma_ways(w, stmts, one, 0, found, found, c);
    lemma_ways(w, stmts, other, 0, found, found, c);
    assert forall|k: usize| one.contains(k) == other.contains(k) by {
        lemma_names_all(stmts.len(), one, k);
        lemma_names_all(stmts.len(), other, k);
    }
    let (f, g) = (leaf(w, stmts, one, found), leaf(w, stmts, other, found));
    let none = Seq::<usize>::empty();
    assert(none + one =~= one);
    lemma_nest_same(w, stmts, none, one, c, f, g);
    lemma_nest_any(w, stmts, one, other, c, g);
}

} // verus!
