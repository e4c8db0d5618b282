//! Laws of what bodies mean: of disjunctions, negations, and the order statements are written
//! in. A flattened query answers what its body means.
use vstd::prelude::*;

use super::joining;
use super::orders;
use super::typing;
use super::typing::Kinds;
use super::{Found, Place, Sense, World};
use crate::flatten::model::{Alt, Gen, Stmt};
use crate::plan::Fact;
use crate::reading;
use crate::reorder;
use crate::schema::Symbol;
use crate::tuple::Datum;

verus! {

// ---- bodies that are the same but for one place -----------------------------

/// Something that holds of the readings of three bodies.
pub type Relation = spec_fn(Seq<Found>, Seq<Found>, Seq<Found>) -> bool;

/// Statements, and an order of them.
pub struct Body {
    pub stmts: Seq<Stmt>,
    pub order: Seq<usize>,
}

impl Body {
    /// Statement `k` of the order.
    pub open spec fn stmt(self, k: nat) -> Stmt {
        self.stmts[self.order[k as int] as int]
    }

    /// The ways to read it from the `k`th statement on.
    pub open spec fn ways(self, w: World, k: nat, found: Found) -> Seq<Found> {
        reading::ways(w, self.stmts, self.order, k, found)
    }

    /// What it means.
    pub open spec fn meant(self, w: World, found: Found) -> Seq<Found> {
        reading::meant(w, self.stmts, self.order, found)
    }
}

/// Two bodies have the same statements from `k` to `p`, the other `d` further on.
pub open spec fn same_between(a: Body, b: Body, d: nat, k: nat, p: nat) -> bool {
    &&& p <= a.order.len()
    &&& p + d <= b.order.len()
    &&& forall|x: nat| k <= x < p ==> #[trigger] a.stmt(x) == b.stmt(x + d)
}

/// What holds of two lots of readings holds of the two put together.
spec fn adds(
    r: Relation,
    a: Seq<Found>,
    b: Seq<Found>,
    c: Seq<Found>,
    x: Seq<Found>,
    y: Seq<Found>,
    z: Seq<Found>,
) -> bool {
    r(a, b, c) && r(x, y, z) ==> r(a + x, b + y, c + z)
}

/// What holds of no readings, and of readings put together.
#[verifier::opaque]
spec fn additive(r: Relation) -> bool {
    &&& r(Seq::empty(), Seq::empty(), Seq::empty())
    &&& forall|
        a: Seq<Found>,
        b: Seq<Found>,
        c: Seq<Found>,
        x: Seq<Found>,
        y: Seq<Found>,
        z: Seq<Found>,
    | #[trigger]
        adds(r, a, b, c, x, y, z)
}

proof fn lemma_none(r: Relation)
    requires
        additive(r),
    ensures
        r(Seq::empty(), Seq::empty(), Seq::empty()),
{
    reveal(additive);
}

proof fn lemma_sum(
    r: Relation,
    a: Seq<Found>,
    b: Seq<Found>,
    c: Seq<Found>,
    x: Seq<Found>,
    y: Seq<Found>,
    z: Seq<Found>,
)
    requires
        additive(r),
        r(a, b, c),
        r(x, y, z),
    ensures
        r(a + x, b + y, c + z),
{
    reveal(additive);
    assert(adds(r, a, b, c, x, y, z));
}

/// What holds of three bodies from one place on holds of them from any place before it.
proof fn lemma_lift(
    w: World,
    a: Body,
    b: Body,
    c: Body,
    d: nat,
    k: nat,
    p: nat,
    r: Relation,
    found: Found,
)
    requires
        k <= p,
        same_between(a, b, d, k, p),
        same_between(a, c, d, k, p),
        additive(r),
        forall|f: Found| #[trigger]
            r(a.ways(w, p, f), b.ways(w, p + d, f), c.ways(w, p + d, f)),
    ensures
        r(a.ways(w, k, found), b.ways(w, k + d, found), c.ways(w, k + d, found)),
    decreases p - k, 2nat, 0nat,
{
    if k == p {
        assert(r(a.ways(w, p, found), b.ways(w, p + d, found), c.ways(w, p + d, found)));
    } else {
        assert(a.stmt(k) == b.stmt(k + d));
        assert(a.stmt(k) == c.stmt(k + d));
        lemma_none(r);
        match a.stmt(k) {
            Stmt::Scan(scan) => lemma_lift_alts(
                w,
                a,
                b,
                c,
                d,
                k,
                p,
                r,
                found,
                scan.alternatives@,
                scan,
            ),
            Stmt::Negate(tested) => {
                if reading::denied(w, found.sense, tested.alternatives@) {
                    lemma_lift(w, a, b, c, d, k + 1, p, r, found);
                }
            },
            Stmt::Alias(alias) => {
                let next = match reading::thing_of(w, found.sense, alias.value) {
                    Some(thing) => reading::with_name(w, found, alias.pattern, thing),
                    None => found,
                };
                lemma_lift(w, a, b, c, d, k + 1, p, r, next);
            },
            Stmt::Constrain(_) => lemma_lift(w, a, b, c, d, k + 1, p, r, found),
        }
    }
}

proof fn lemma_lift_alts(
    w: World,
    a: Body,
    b: Body,
    c: Body,
    d: nat,
    k: nat,
    p: nat,
    r: Relation,
    found: Found,
    alts: Seq<Alt>,
    scan: Gen,
)
    requires
        k < p,
        same_between(a, b, d, k, p),
        same_between(a, c, d, k, p),
        additive(r),
        forall|f: Found| #[trigger]
            r(a.ways(w, p, f), b.ways(w, p + d, f), c.ways(w, p + d, f)),
    ensures
        r(
            reading::over_alts(w, a.stmts, a.order, k, found, alts, scan),
            reading::over_alts(w, b.stmts, b.order, k + d, found, alts, scan),
            reading::over_alts(w, c.stmts, c.order, k + d, found, alts, scan),
        ),
    decreases p - k, 1nat, alts.len(),
{
    lemma_none(r);
    if alts.len() > 0 {
        let left = reading::matched(w, found.sense, alts[0]);
        let rest = alts.skip(1);
        lemma_lift_facts(w, a, b, c, d, k, p, r, found, alts[0], scan, left);
        lemma_lift_alts(w, a, b, c, d, k, p, r, found, rest, scan);
        lemma_sum(
            r,
            reading::over_facts(w, a.stmts, a.order, k, found, alts[0], scan, left),
            reading::over_facts(w, b.stmts, b.order, k + d, found, alts[0], scan, left),
            reading::over_facts(w, c.stmts, c.order, k + d, found, alts[0], scan, left),
            reading::over_alts(w, a.stmts, a.order, k, found, rest, scan),
            reading::over_alts(w, b.stmts, b.order, k + d, found, rest, scan),
            reading::over_alts(w, c.stmts, c.order, k + d, found, rest, scan),
        );
    }
}

proof fn lemma_lift_facts(
    w: World,
    a: Body,
    b: Body,
    c: Body,
    d: nat,
    k: nat,
    p: nat,
    r: Relation,
    found: Found,
    alt: Alt,
    scan: Gen,
    left: Seq<Fact>,
)
    requires
        k < p,
        same_between(a, b, d, k, p),
        same_between(a, c, d, k, p),
        additive(r),
        forall|f: Found| #[trigger]
            r(a.ways(w, p, f), b.ways(w, p + d, f), c.ways(w, p + d, f)),
    ensures
        r(
            reading::over_facts(w, a.stmts, a.order, k, found, alt, scan, left),
            reading::over_facts(w, b.stmts, b.order, k + d, found, alt, scan, left),
            reading::over_facts(w, c.stmts, c.order, k + d, found, alt, scan, left),
        ),
    decreases p - k, 0nat, left.len(),
{
    lemma_none(r);
    if left.len() > 0 {
        let next = reading::with_fact(w, found, scan, alt, left[0]);
        let rest = left.skip(1);
        lemma_lift(w, a, b, c, d, k + 1, p, r, next);
        lemma_lift_facts(w, a, b, c, d, k, p, r, found, alt, scan, rest);
        lemma_sum(
            r,
            a.ways(w, k + 1, next),
            b.ways(w, k + d + 1, next),
            c.ways(w, k + d + 1, next),
            reading::over_facts(w, a.stmts, a.order, k, found, alt, scan, rest),
            reading::over_facts(w, b.stmts, b.order, k + d, found, alt, scan, rest),
            reading::over_facts(w, c.stmts, c.order, k + d, found, alt, scan, rest),
        );
    }
}

/// The first readings are the second.
spec fn equally() -> Relation {
    |a: Seq<Found>, b: Seq<Found>, c: Seq<Found>| a == b
}

proof fn lemma_equally()
    ensures
        additive(equally()),
{
    reveal(additive);
}

/// Bodies with the same statements in the same order are read alike.
proof fn lemma_alike(w: World, a: Body, b: Body, d: nat, k: nat, found: Found)
    requires
        k <= a.order.len(),
        a.order.len() + d == b.order.len(),
        same_between(a, b, d, k, a.order.len()),
    ensures
        a.ways(w, k, found) == b.ways(w, k + d, found),
{
    lemma_equally();
    lemma_lift(w, a, b, b, d, k, a.order.len(), equally(), found);
}

// ---- a body written in another order ----------------------------------------

/// The order in which `other` reads a body that was rewritten, as an order of the body as it
/// was: `places[i]` is where the `i`th statement was.
pub open spec fn unwritten(places: Seq<usize>, other: Seq<usize>) -> Seq<usize> {
    other.map_values(|i: usize| places[i as int])
}

/// The statements of one body are those of another, each from its place there.
pub open spec fn rewrites(written: Seq<Stmt>, rewritten: Seq<Stmt>, places: Seq<usize>) -> bool {
    &&& reorder::is_order(written.len(), places)
    &&& rewritten.len() == places.len()
    &&& forall|i: int|
        0 <= i < places.len() ==> rewritten[i] == written[#[trigger] places[i] as int]
}

/// A rewritten body is read as the body it was, in the order that comes to.
pub proof fn lemma_rewritten(
    w: World,
    reread: Body,
    rewritten: Body,
    places: Seq<usize>,
    found: Found,
)
    requires
        rewrites(reread.stmts, rewritten.stmts, places),
        reorder::is_order(rewritten.stmts.len(), rewritten.order),
        reread.order == unwritten(places, rewritten.order),
    ensures
        reread.meant(w, found) == rewritten.meant(w, found),
{
    assert forall|x: nat| 0 <= x < reread.order.len() implies #[trigger] rewritten.stmt(x)
        == reread.stmt(x + 0) by {
        let i = rewritten.order[x as int];
        assert(reread.order[x as int] == places[i as int]);
    }
    lemma_alike(w, rewritten, reread, 0, 0, found);
}

/// Writing the statements of a body in another order means the same: whichever order that
/// binds before it reads each of the two is read in, they have the same rows, each as often.
pub proof fn law_a_rewritten_body_means_the_same(
    w: World,
    kinds: Kinds,
    found: Found,
    written: Body,
    rewritten: Body,
    places: Seq<usize>,
)
    requires
        rewrites(written.stmts, rewritten.stmts, places),
        reorder::is_order(rewritten.stmts.len(), rewritten.order),
        joining::comparing(
            w,
            kinds,
            found,
            written.stmts,
            written.order,
            unwritten(places, rewritten.order),
        ),
    ensures
        orders::rows(w, written.meant(w, found)) == orders::rows(w, rewritten.meant(w, found)),
{
    let order = unwritten(places, rewritten.order);
    joining::law_a_join_means_the_same_in_every_order(
        w,
        kinds,
        found,
        written.stmts,
        written.order,
        order,
    );
    lemma_rewritten(w, Body { stmts: written.stmts, order }, rewritten, places, found);
}

// ---- negations --------------------------------------------------------------

/// One body denies a disjunction at `p`, and the other each of its branches.
pub open spec fn denies_apart(
    together: Body,
    apart: Body,
    p: nat,
    whole: Gen,
    first: Gen,
    second: Gen,
) -> bool {
    &&& p < together.order.len()
    &&& together.order.len() + 1 == apart.order.len()
    &&& whole.alternatives@ == first.alternatives@ + second.alternatives@
    &&& together.stmt(p) == Stmt::Negate(whole)
    &&& apart.stmt(p) == Stmt::Negate(first)
    &&& apart.stmt(p + 1) == Stmt::Negate(second)
    &&& same_between(together, apart, 0, 0, p)
    &&& same_between(together, apart, 1, p + 1, together.order.len())
}

/// To deny a disjunction is to deny each branch: a body that denies `a | b` has exactly the
/// readings, in the same order, of the body that denies `a` and then `b`.
pub proof fn law_denying_a_disjunction_means_denying_each_branch(
    w: World,
    together: Body,
    apart: Body,
    p: nat,
    whole: Gen,
    first: Gen,
    second: Gen,
    found: Found,
)
    requires
        denies_apart(together, apart, p, whole, first, second),
    ensures
        together.meant(w, found) == apart.meant(w, found),
{
    let (a, b) = (first.alternatives@, second.alternatives@);
    let r = equally();
    lemma_equally();
    assert forall|f: Found| #[trigger]
        r(together.ways(w, p, f), apart.ways(w, p + 0, f), apart.ways(w, p + 0, f)) by {
        lemma_alike(w, together, apart, 1, p + 1, f);
        lemma_denied_both(w, f.sense, a, b);
        assert(apart.ways(w, p, f) == (if reading::denied(w, f.sense, a) {
            apart.ways(w, p + 1, f)
        } else {
            Seq::empty()
        }));
        assert(apart.ways(w, p + 1, f) == (if reading::denied(w, f.sense, b) {
            apart.ways(w, p + 2, f)
        } else {
            Seq::empty()
        }));
    }
    lemma_lift(w, together, apart, apart, 0, 0, p, r, found);
}

proof fn lemma_denied_both(w: World, sense: Sense, a: Seq<Alt>, b: Seq<Alt>)
    ensures
        reading::denied(w, sense, a + b) == (reading::denied(w, sense, a) && reading::denied(
            w,
            sense,
            b,
        )),
{
    let all = a + b;
    if reading::denied(w, sense, all) {
        assert forall|i: int| 0 <= i < a.len() implies reading::matched(
            w,
            sense,
            #[trigger] a[i],
        ).len() == 0 by {
            assert(all[i] == a[i]);
        }
        assert forall|i: int| 0 <= i < b.len() implies reading::matched(
            w,
            sense,
            #[trigger] b[i],
        ).len() == 0 by {
            assert(all[a.len() + i] == b[i]);
        }
    }
    if reading::denied(w, sense, a) && reading::denied(w, sense, b) {
        assert forall|i: int| 0 <= i < all.len() implies reading::matched(
            w,
            sense,
            #[trigger] all[i],
        ).len() == 0 by {
            if i < a.len() {
                assert(all[i] == a[i]);
            } else {
                assert(all[i] == b[i - a.len()]);
            }
        }
    }
}

/// Whether a reading is one a negation lets through.
pub open spec fn let_through(w: World, alts: Seq<Alt>) -> spec_fn(Found) -> bool {
    |way: Found| reading::denied(w, way.sense, alts)
}

/// Whether a reading is one a negation stops.
pub open spec fn stopped(w: World, alts: Seq<Alt>) -> spec_fn(Found) -> bool {
    |way: Found| !reading::denied(w, way.sense, alts)
}

/// A body, and the same with one statement more to read last.
pub open spec fn ends_in(body: Body, longer: Body, last: Stmt) -> bool {
    &&& longer.order.len() == body.order.len() + 1
    &&& same_between(body, longer, 0, 0, body.order.len())
    &&& longer.stmt(body.order.len()) == last
}

/// A negation read last keeps the readings it lets through, in order, and no others.
pub proof fn law_a_negation_keeps_what_it_lets_through(
    w: World,
    plain: Body,
    denied: Body,
    tested: Gen,
    found: Found,
)
    requires
        ends_in(plain, denied, Stmt::Negate(tested)),
    ensures
        denied.meant(w, found) == plain.meant(w, found).filter(
            let_through(w, tested.alternatives@),
        ),
{
    let n = plain.order.len();
    let q = let_through(w, tested.alternatives@);
    let r = |a: Seq<Found>, b: Seq<Found>, c: Seq<Found>| b == a.filter(q);
    assert(additive(r)) by {
        reveal(additive);
        reveal(Seq::filter);
        assert forall|
            a: Seq<Found>,
            b: Seq<Found>,
            c: Seq<Found>,
            x: Seq<Found>,
            y: Seq<Found>,
            z: Seq<Found>,
        | #[trigger]
            adds(r, a, b, c, x, y, z) by {
            Seq::<Found>::filter_distributes_over_add(a, x, q);
        }
    }
    assert forall|f: Found| #[trigger]
        r(plain.ways(w, n, f), denied.ways(w, n + 0, f), denied.ways(w, n + 0, f)) by {
        reveal_with_fuel(Seq::filter, 2);
        let one = seq![f];
        assert(one.drop_last() =~= Seq::<Found>::empty());
        assert(plain.ways(w, n, f) == one);
        assert(denied.ways(w, n + 1, f) == one);
        assert(one.filter(q) =~= (if q(f) {
            one
        } else {
            Seq::empty()
        }));
    }
    lemma_lift(w, plain, denied, denied, 0, 0, n, r, found);
    let kept = |way: Found| reading::kept(w, way);
    lemma_filters(plain.ways(w, 0, found), q, kept);
}

proof fn lemma_filters(s: Seq<Found>, p: spec_fn(Found) -> bool, q: spec_fn(Found) -> bool)
    ensures
        s.filter(p).filter(q) == s.filter(q).filter(p),
    decreases s.len(),
{
    reveal(Seq::filter);
    if s.len() > 0 {
        let (less, last) = (s.drop_last(), s.last());
        lemma_filters(less, p, q);
        let (a, b) = (less.filter(p), less.filter(q));
        if p(last) {
            assert(a.push(last).drop_last() =~= a);
        }
        if q(last) {
            assert(b.push(last).drop_last() =~= b);
        }
    }
}

/// A reading in which a pattern names nothing new.
pub open spec fn names_nothing(w: World, scan: Gen, way: Found) -> bool {
    reading::bindings(w, way.sense, scan) == Seq::<(Symbol, Place)>::empty()
}

/// A negation and its assertion share the readings out: those of a body that the pattern,
/// read last, is asserted of are exactly those that its denial drops. The pattern names
/// nothing new, as a negation does not.
pub proof fn law_an_assertion_means_what_its_denial_drops(
    w: World,
    plain: Body,
    asserted: Body,
    scan: Gen,
    found: Found,
)
    requires
        ends_in(plain, asserted, Stmt::Scan(scan)),
        scan.row is None,
        forall|way: Found| #[trigger]
            plain.ways(w, 0, found).contains(way) ==> names_nothing(w, scan, way),
    ensures
        forall|way: Found|
            #![trigger asserted.meant(w, found).contains(way)]
            asserted.meant(w, found).contains(way) <==> plain.meant(w, found).filter(
                stopped(w, scan.alternatives@),
            ).contains(way),
{
    let n = plain.order.len();
    let q = let_through(w, scan.alternatives@);
    let r = dropped(w, scan);
    assert(additive(r)) by {
        reveal(additive);
        assert forall|
            a: Seq<Found>,
            b: Seq<Found>,
            c: Seq<Found>,
            x: Seq<Found>,
            y: Seq<Found>,
            z: Seq<Found>,
        | #[trigger]
            adds(r, a, b, c, x, y, z) by {
            if r(a, b, c) && r(x, y, z) {
                lemma_dropped(w, scan, a, b, x, y);
            }
        }
    }
    assert forall|f: Found| #[trigger]
        r(plain.ways(w, n, f), asserted.ways(w, n + 0, f), asserted.ways(w, n + 0, f)) by {
        assert(plain.ways(w, n, f) == seq![f]);
        lemma_dropped_last(w, asserted, n, scan, f);
    }
    lemma_lift(w, plain, asserted, asserted, 0, 0, n, r, found);
    let kept = |way: Found| reading::kept(w, way);
    let (x, y) = (plain.ways(w, 0, found), asserted.ways(w, 0, found));
    assert forall|way: Found|
        #![trigger asserted.meant(w, found).contains(way)]
        asserted.meant(w, found).contains(way) <==> plain.meant(w, found).filter(
            stopped(w, scan.alternatives@),
        ).contains(way) by {
        lemma_in_filter(plain.meant(w, found), stopped(w, scan.alternatives@), way);
        lemma_in_filter(x, kept, way);
        lemma_in_filter(y, kept, way);
        assert(y.contains(way) <==> x.contains(way) && !q(way));
    }
}

/// Readings that a negation lets through and those it stops have the rows between them.
pub proof fn lemma_parted(w: World, ways: Seq<Found>, alts: Seq<Alt>)
    ensures
        orders::rows(w, ways) == orders::rows(w, ways.filter(let_through(w, alts))).add(
            orders::rows(w, ways.filter(stopped(w, alts))),
        ),
    decreases ways.len(),
{
    reveal(Seq::filter);
    broadcast use vstd::seq_lib::group_to_multiset_ensures;
    let (p, q) = (let_through(w, alts), stopped(w, alts));
    let said = |way: Found| reading::value(w, way.sense, w.cx.ast.root().head);
    if ways.len() == 0 {
        let none = Seq::<Found>::empty();
        assert(ways =~= none);
        assert(ways.filter(p) =~= none);
        assert(ways.filter(q) =~= none);
        assert(none.map_values(said) =~= Seq::empty());
        assert(orders::rows(w, none).len() == 0);
        assert(orders::rows(w, none) =~= orders::rows(w, none).add(orders::rows(w, none)));
    } else {
        let (less, last) = (ways.drop_last(), ways.last());
        lemma_parted(w, less, alts);
        let (x, y) = (less.filter(p), less.filter(q));
        assert(ways =~= less.push(last));
        assert(less.push(last).map_values(said) =~= less.map_values(said).push(said(last)));
        assert(x.push(last).map_values(said) =~= x.map_values(said).push(said(last)));
        assert(y.push(last).map_values(said) =~= y.map_values(said).push(said(last)));
        assert(orders::rows(w, ways) =~= orders::rows(w, ways.filter(p)).add(
            orders::rows(w, ways.filter(q)),
        ));
    }
}

proof fn lemma_row_of(w: World, ways: Seq<Found>, row: Option<Datum>)
    ensures
        orders::rows(w, ways).contains(row) <==> exists|way: Found| #[trigger]
            ways.contains(way) && reading::value(w, way.sense, w.cx.ast.root().head) == row,
{
    broadcast use vstd::seq_lib::group_to_multiset_ensures;
    let said = ways.map_values(
        |way: Found| reading::value(w, way.sense, w.cx.ast.root().head),
    );
    said.to_multiset_ensures();
    assert(orders::rows(w, ways).contains(row) == said.contains(row));
    if said.contains(row) {
        let i = choose|i: int| 0 <= i < said.len() && said[i] == row;
        assert(ways.contains(ways[i]));
    }
    if exists|way: Found| #[trigger]
        ways.contains(way) && reading::value(w, way.sense, w.cx.ast.root().head) == row {
        let way = choose|way: Found| #[trigger]
            ways.contains(way) && reading::value(w, way.sense, w.cx.ast.root().head) == row;
        let i = choose|i: int| 0 <= i < ways.len() && ways[i] == way;
        assert(said[i] == row);
    }
}

/// The same readings, however often, say the same rows, however often.
pub proof fn lemma_same_row_set(w: World, a: Seq<Found>, b: Seq<Found>)
    requires
        forall|way: Found| #[trigger] a.contains(way) <==> b.contains(way),
    ensures
        forall|row: Option<Datum>| #[trigger]
            orders::rows(w, a).contains(row) <==> orders::rows(w, b).contains(row),
{
    assert forall|row: Option<Datum>| #[trigger]
        orders::rows(w, a).contains(row) <==> orders::rows(w, b).contains(row) by {
        lemma_row_of(w, a, row);
        lemma_row_of(w, b, row);
        assert forall|way: Found| #[trigger] b.contains(way) implies a.contains(way) by {}
    }
}

/// The second readings are those of the first that a negation drops.
spec fn dropped(w: World, scan: Gen) -> Relation {
    |a: Seq<Found>, b: Seq<Found>, c: Seq<Found>|
        (forall|way: Found| #[trigger] a.contains(way) ==> names_nothing(w, scan, way)) ==> forall|
            way: Found,
        |
            #![trigger b.contains(way)]
            b.contains(way) <==> a.contains(way) && !let_through(w, scan.alternatives@)(way)
}

proof fn lemma_in_filter(s: Seq<Found>, p: spec_fn(Found) -> bool, way: Found)
    ensures
        s.filter(p).contains(way) == (s.contains(way) && p(way)),
{
    if s.filter(p).contains(way) {
        let i = choose|i: int| 0 <= i < s.filter(p).len() && s.filter(p)[i] == way;
        s.lemma_filter_pred(p, i);
        s.lemma_filter_contains_rev(p, way);
    }
    if s.contains(way) && p(way) {
        let i = choose|i: int| 0 <= i < s.len() && s[i] == way;
        s.lemma_filter_contains(p, i);
    }
}

proof fn lemma_in_sum(a: Seq<Found>, b: Seq<Found>, way: Found)
    ensures
        (a + b).contains(way) == (a.contains(way) || b.contains(way)),
{
    let all = a + b;
    if a.contains(way) {
        let i = choose|i: int| 0 <= i < a.len() && a[i] == way;
        assert(all[i] == way);
    }
    if b.contains(way) {
        let i = choose|i: int| 0 <= i < b.len() && b[i] == way;
        assert(all[a.len() + i] == way);
    }
    if all.contains(way) {
        let i = choose|i: int| 0 <= i < all.len() && all[i] == way;
        if i < a.len() {
            assert(a[i] == way);
        } else {
            assert(b[i - a.len()] == way);
        }
    }
}

proof fn lemma_dropped(
    w: World,
    scan: Gen,
    a: Seq<Found>,
    b: Seq<Found>,
    x: Seq<Found>,
    y: Seq<Found>,
)
    requires
        dropped(w, scan)(a, b, b),
        dropped(w, scan)(x, y, y),
    ensures
        dropped(w, scan)(a + x, b + y, b + y),
{
    let q = let_through(w, scan.alternatives@);
    if forall|way: Found| #[trigger] (a + x).contains(way) ==> names_nothing(w, scan, way) {
        assert forall|way: Found| #[trigger] a.contains(way) implies names_nothing(
            w,
            scan,
            way,
        ) by {
            lemma_in_sum(a, x, way);
            assert((a + x).contains(way));
        }
        assert forall|way: Found| #[trigger] x.contains(way) implies names_nothing(
            w,
            scan,
            way,
        ) by {
            lemma_in_sum(a, x, way);
            assert((a + x).contains(way));
        }
        assert forall|way: Found|
            #![trigger (b + y).contains(way)]
            (b + y).contains(way) <==> (a + x).contains(way) && !q(way) by {
            lemma_in_sum(a, x, way);
            lemma_in_sum(b, y, way);
            assert(b.contains(way) <==> a.contains(way) && !q(way));
            assert(y.contains(way) <==> x.contains(way) && !q(way));
        }
    }
}

proof fn lemma_dropped_last(w: World, body: Body, n: nat, scan: Gen, f: Found)
    requires
        body.order.len() == n + 1,
        body.stmt(n) == Stmt::Scan(scan),
        scan.row is None,
    ensures
        dropped(w, scan)(seq![f], body.ways(w, n, f), body.ways(w, n, f)),
{
    let one = seq![f];
    let alts = scan.alternatives@;
    let ways = body.ways(w, n, f);
    assert(one[0] == f);
    assert(one.contains(f));
    if names_nothing(w, scan, f) {
        lemma_asserted(w, body, n, f, scan, alts);
        assert(ways == reading::over_alts(w, body.stmts, body.order, n, f, alts, scan));
        assert forall|way: Found|
            #![trigger ways.contains(way)]
            ways.contains(way) <==> one.contains(way) && !let_through(w, alts)(way) by {
            assert(ways.contains(way) <==> way == f && !reading::denied(w, f.sense, alts));
            if one.contains(way) {
                let i = choose|i: int| 0 <= i < one.len() && one[i] == way;
                assert(way == f);
            }
        }
    }
}

/// A pattern that names nothing new, read last, repeats a reading for each fact it matches.
proof fn lemma_asserted(w: World, body: Body, n: nat, f: Found, scan: Gen, alts: Seq<Alt>)
    requires
        body.order.len() == n + 1,
        scan.row is None,
        names_nothing(w, scan, f),
    ensures
        forall|way: Found|
            #![trigger reading::over_alts(w, body.stmts, body.order, n, f, alts, scan).contains(way)]
            reading::over_alts(w, body.stmts, body.order, n, f, alts, scan).contains(way) <==> way
                == f && !reading::denied(w, f.sense, alts),
    decreases alts.len(),
{
    let found = reading::over_alts(w, body.stmts, body.order, n, f, alts, scan);
    if alts.len() > 0 {
        let rest = alts.skip(1);
        lemma_asserted(w, body, n, f, scan, rest);
        let facts = reading::matched(w, f.sense, alts[0]);
        lemma_asserted_facts(w, body, n, f, scan, alts[0], facts);
        let here = reading::over_facts(w, body.stmts, body.order, n, f, alts[0], scan, facts);
        let there = reading::over_alts(w, body.stmts, body.order, n, f, rest, scan);
        assert(alts =~= seq![alts[0]] + rest);
        lemma_denied_both(w, f.sense, seq![alts[0]], rest);
        assert(reading::denied(w, f.sense, seq![alts[0]]) == (facts.len() == 0)) by {
            assert(seq![alts[0]][0] == alts[0]);
        }
        assert forall|way: Found|
            #![trigger found.contains(way)]
            found.contains(way) <==> way == f && !reading::denied(w, f.sense, alts) by {
            lemma_in_sum(here, there, way);
            assert(there.contains(way) <==> way == f && !reading::denied(w, f.sense, rest));
            assert(here.contains(way) <==> way == f && facts.len() > 0);
        }
    }
}

proof fn lemma_asserted_facts(
    w: World,
    body: Body,
    n: nat,
    f: Found,
    scan: Gen,
    alt: Alt,
    left: Seq<Fact>,
)
    requires
        body.order.len() == n + 1,
        scan.row is None,
        names_nothing(w, scan, f),
    ensures
        forall|way: Found|
            #![trigger reading::over_facts(w, body.stmts, body.order, n, f, alt, scan, left).contains(way)]
            reading::over_facts(w, body.stmts, body.order, n, f, alt, scan, left).contains(way)
                <==> way == f && left.len() > 0,
    decreases left.len(),
{
    let found = reading::over_facts(w, body.stmts, body.order, n, f, alt, scan, left);
    if left.len() > 0 {
        let next = reading::with_fact(w, f, scan, alt, left[0]);
        assert(next.sense =~= f.sense);
        assert(next == f);
        lemma_asserted_facts(w, body, n, f, scan, alt, left.skip(1));
        let one = reading::ways(w, body.stmts, body.order, n + 1, next);
        let rest = reading::over_facts(w, body.stmts, body.order, n, f, alt, scan, left.skip(1));
        assert(one == seq![f]);
        assert(one[0] == f);
        assert forall|way: Found|
            #![trigger found.contains(way)]
            found.contains(way) <==> way == f && left.len() > 0 by {
            lemma_in_sum(one, rest, way);
            assert(rest.contains(way) <==> way == f && left.skip(1).len() > 0);
            assert(one.contains(way) <==> way == f) by {
                if one.contains(way) {
                    let i = choose|i: int| 0 <= i < one.len() && one[i] == way;
                }
            }
        }
    }
}

// ---- disjunctions -----------------------------------------------------------

/// The alternatives name the same variables, at the same places.
pub open spec fn alike(w: World, alts: Seq<Alt>, taken: Seq<(Symbol, Place)>) -> bool {
    forall|i: int| 0 <= i < alts.len() ==> typing::occurring(w, #[trigger] alts[i]) == taken
}

proof fn lemma_common_all(taken: Seq<(Symbol, Place)>, n: nat)
    requires
        n <= taken.len(),
    ensures
        reading::common(taken, taken, n) == taken.take(n as int),
    decreases n,
{
    if n > 0 {
        lemma_common_all(taken, (n - 1) as nat);
        assert(reading::taken_in(taken, taken[n - 1].0));
        assert(taken.take(n as int) =~= taken.take(n - 1).push(taken[n - 1]));
    } else {
        assert(taken.take(0) =~= Seq::empty());
    }
}

/// Alternatives that are alike bind what any of them takes.
proof fn lemma_alike_shared(
    w: World,
    sense: Sense,
    alts: Seq<Alt>,
    taken: Seq<(Symbol, Place)>,
    k: nat,
)
    requires
        alike(w, alts, taken),
        0 < k <= alts.len(),
    ensures
        reading::shared(w, sense, alts, k) == taken.filter(typing::missing(sense)),
    decreases k,
{
    let last = alts[k - 1];
    assert(typing::occurring(w, alts[k - 1]) == taken);
    typing::lemma_takes_key_less(
        w,
        typing::nothing(),
        sense,
        last.key,
        reading::key_of(w, last),
    );
    if k > 1 {
        lemma_alike_shared(w, sense, alts, taken, (k - 1) as nat);
        let own = taken.filter(typing::missing(sense));
        lemma_common_all(own, own.len());
        assert(own.take(own.len() as int) =~= own);
    }
}

/// The answers among the first readings have the rows of those among the second and third.
spec fn put_together(w: World) -> Relation {
    |a: Seq<Found>, b: Seq<Found>, c: Seq<Found>|
        orders::rows(w, orders::answers(w, a)) == orders::rows(w, orders::answers(w, b)).add(
            orders::rows(w, orders::answers(w, c)),
        )
}

proof fn lemma_put_together(w: World)
    ensures
        additive(put_together(w)),
{
    reveal(additive);
    let r = put_together(w);
    let none = Seq::<Found>::empty();
    orders::lemma_rows_more(w, none, none);
    assert(none + none =~= none);
    assert forall|
        a: Seq<Found>,
        b: Seq<Found>,
        c: Seq<Found>,
        x: Seq<Found>,
        y: Seq<Found>,
        z: Seq<Found>,
    | #[trigger]
        adds(r, a, b, c, x, y, z) by {
        if r(a, b, c) && r(x, y, z) {
            orders::lemma_rows_more(w, a, x);
            orders::lemma_rows_more(w, b, y);
            orders::lemma_rows_more(w, c, z);
            assert(orders::rows(w, orders::answers(w, a + x)) =~= orders::rows(
                w,
                orders::answers(w, b + y),
            ).add(orders::rows(w, orders::answers(w, c + z))));
        }
    }
}

/// The answers among the first readings have the rows of those among the second.
spec fn say_the_same(w: World) -> Relation {
    |a: Seq<Found>, b: Seq<Found>, c: Seq<Found>|
        orders::rows(w, orders::answers(w, a)) == orders::rows(w, orders::answers(w, b))
}

proof fn lemma_say_the_same(w: World)
    ensures
        additive(say_the_same(w)),
{
    reveal(additive);
    let r = say_the_same(w);
    assert forall|
        a: Seq<Found>,
        b: Seq<Found>,
        c: Seq<Found>,
        x: Seq<Found>,
        y: Seq<Found>,
        z: Seq<Found>,
    | #[trigger]
        adds(r, a, b, c, x, y, z) by {
        orders::lemma_rows_more(w, a, x);
        orders::lemma_rows_more(w, b, y);
    }
}

/// Bodies that are the same but for statement `p` of their orders.
pub open spec fn same_but_at(a: Body, b: Body, p: nat) -> bool {
    &&& p < a.order.len()
    &&& a.order.len() == b.order.len()
    &&& same_between(a, b, 0, 0, p)
    &&& same_between(a, b, 0, p + 1, a.order.len())
}

/// One body has a disjunction at `p`, and two others a branch of it each.
pub open spec fn branches(
    both: Body,
    first: Body,
    second: Body,
    p: nat,
    whole: Gen,
    one: Gen,
    other: Gen,
) -> bool {
    &&& same_but_at(both, first, p)
    &&& same_but_at(both, second, p)
    &&& both.stmt(p) == Stmt::Scan(whole)
    &&& first.stmt(p) == Stmt::Scan(one)
    &&& second.stmt(p) == Stmt::Scan(other)
    &&& whole.alternatives@ == one.alternatives@ + other.alternatives@
    &&& one.row == whole.row
    &&& other.row == whole.row
}

/// A disjunction is its branches, put together: a body with a pattern `a | b` has the rows it
/// has with `a` and those it has with `b`, each as often as the two together. The branches
/// name the same variables, at the same places.
pub proof fn law_a_disjunction_means_its_branches(
    w: World,
    both: Body,
    first: Body,
    second: Body,
    p: nat,
    whole: Gen,
    one: Gen,
    other: Gen,
    taken: Seq<(Symbol, Place)>,
    found: Found,
)
    requires
        branches(both, first, second, p, whole, one, other),
        alike(w, whole.alternatives@, taken),
    ensures
        orders::rows(w, both.meant(w, found)) == orders::rows(w, first.meant(w, found)).add(
            orders::rows(w, second.meant(w, found)),
        ),
{
    let r = put_together(w);
    lemma_put_together(w);
    let (a, b) = (one.alternatives@, other.alternatives@);
    lemma_alike_parts(w, a, b, taken);
    assert forall|f: Found| #[trigger]
        r(both.ways(w, p, f), first.ways(w, p + 0, f), second.ways(w, p + 0, f)) by {
        lemma_more_alts(w, both, p, f, a, b, whole);
        lemma_branch(w, both, first, p, f, a, whole, one, taken);
        lemma_branch(w, both, second, p, f, b, whole, other, taken);
        orders::lemma_rows_more(w, first.ways(w, p, f), second.ways(w, p, f));
    }
    lemma_lift(w, both, first, second, 0, 0, p, r, found);
}

/// One body has a disjunction at `p`, and the other the same, turned round.
pub open spec fn swaps(
    written: Body,
    swapped: Body,
    p: nat,
    whole: Gen,
    turned: Gen,
    one: Seq<Alt>,
    other: Seq<Alt>,
) -> bool {
    &&& same_but_at(written, swapped, p)
    &&& written.stmt(p) == Stmt::Scan(whole)
    &&& swapped.stmt(p) == Stmt::Scan(turned)
    &&& whole.alternatives@ == one + other
    &&& turned.alternatives@ == other + one
    &&& turned.row == whole.row
}

/// The order of branches is no part of what a body means: written `b | a`, it has the same
/// rows as written `a | b`, each as often.
pub proof fn law_swapped_branches_mean_the_same(
    w: World,
    written: Body,
    swapped: Body,
    p: nat,
    whole: Gen,
    turned: Gen,
    one: Seq<Alt>,
    other: Seq<Alt>,
    taken: Seq<(Symbol, Place)>,
    found: Found,
)
    requires
        swaps(written, swapped, p, whole, turned, one, other),
        alike(w, whole.alternatives@, taken),
    ensures
        orders::rows(w, written.meant(w, found)) == orders::rows(w, swapped.meant(w, found)),
{
    let r = say_the_same(w);
    lemma_say_the_same(w);
    lemma_alike_parts(w, one, other, taken);
    assert forall|i: int| 0 <= i < turned.alternatives@.len() implies typing::occurring(
        w,
        #[trigger] turned.alternatives@[i],
    ) == taken by {
        if i < other.len() {
            assert(turned.alternatives@[i] == other[i]);
        } else {
            assert(turned.alternatives@[i] == one[i - other.len()]);
        }
    }
    assert forall|f: Found| #[trigger]
        r(written.ways(w, p, f), swapped.ways(w, p + 0, f), swapped.ways(w, p + 0, f)) by {
        lemma_more_alts(w, written, p, f, one, other, whole);
        lemma_more_alts(w, swapped, p, f, other, one, turned);
        lemma_branch(w, written, swapped, p, f, one, whole, turned, taken);
        lemma_branch(w, written, swapped, p, f, other, whole, turned, taken);
        let x = reading::over_alts(w, written.stmts, written.order, p, f, one, whole);
        let y = reading::over_alts(w, written.stmts, written.order, p, f, other, whole);
        orders::lemma_rows_more(w, x, y);
        orders::lemma_rows_more(w, y, x);
        assert(orders::rows(w, orders::answers(w, x + y)) =~= orders::rows(
            w,
            orders::answers(w, y + x),
        ));
    }
    lemma_lift(w, written, swapped, swapped, 0, 0, p, r, found);
}

proof fn lemma_alike_parts(w: World, a: Seq<Alt>, b: Seq<Alt>, taken: Seq<(Symbol, Place)>)
    requires
        alike(w, a + b, taken),
    ensures
        alike(w, a, taken),
        alike(w, b, taken),
{
    let all = a + b;
    assert forall|i: int| 0 <= i < a.len() implies typing::occurring(w, #[trigger] a[i])
        == taken by {
        assert(all[i] == a[i]);
    }
    assert forall|i: int| 0 <= i < b.len() implies typing::occurring(w, #[trigger] b[i])
        == taken by {
        assert(all[a.len() + i] == b[i]);
    }
}

proof fn lemma_more_alts(
    w: World,
    body: Body,
    k: nat,
    found: Found,
    a: Seq<Alt>,
    b: Seq<Alt>,
    scan: Gen,
)
    requires
        k < body.order.len(),
    ensures
        reading::over_alts(w, body.stmts, body.order, k, found, a + b, scan) == reading::over_alts(
            w,
            body.stmts,
            body.order,
            k,
            found,
            a,
            scan,
        ) + reading::over_alts(w, body.stmts, body.order, k, found, b, scan),
    decreases a.len(),
{
    if a.len() == 0 {
        assert(a + b =~= b);
        assert(Seq::<Found>::empty() + reading::over_alts(
            w,
            body.stmts,
            body.order,
            k,
            found,
            b,
            scan,
        ) =~= reading::over_alts(w, body.stmts, body.order, k, found, b, scan));
    } else {
        assert((a + b).skip(1) =~= a.skip(1) + b);
        assert((a + b)[0] == a[0]);
        lemma_more_alts(w, body, k, found, a.skip(1), b, scan);
        let here = reading::over_facts(
            w,
            body.stmts,
            body.order,
            k,
            found,
            a[0],
            scan,
            reading::matched(w, found.sense, a[0]),
        );
        let x = reading::over_alts(w, body.stmts, body.order, k, found, a.skip(1), scan);
        let y = reading::over_alts(w, body.stmts, body.order, k, found, b, scan);
        assert(here + (x + y) =~= (here + x) + y);
    }
}

/// A branch reads as it does alone.
proof fn lemma_branch(
    w: World,
    both: Body,
    alone: Body,
    p: nat,
    found: Found,
    alts: Seq<Alt>,
    whole: Gen,
    one: Gen,
    taken: Seq<(Symbol, Place)>,
)
    requires
        same_but_at(both, alone, p),
        one.row == whole.row,
        alike(w, whole.alternatives@, taken),
        alike(w, one.alternatives@, taken),
        alts.len() > 0 ==> one.alternatives@.len() > 0 && whole.alternatives@.len() > 0,
    ensures
        reading::over_alts(w, both.stmts, both.order, p, found, alts, whole) == reading::over_alts(
            w,
            alone.stmts,
            alone.order,
            p,
            found,
            alts,
            one,
        ),
    decreases alts.len(),
{
    if alts.len() > 0 {
        lemma_branch(w, both, alone, p, found, alts.skip(1), whole, one, taken);
        lemma_branch_facts(
            w,
            both,
            alone,
            p,
            found,
            alts[0],
            whole,
            one,
            taken,
            reading::matched(w, found.sense, alts[0]),
        );
    }
}

proof fn lemma_branch_facts(
    w: World,
    both: Body,
    alone: Body,
    p: nat,
    found: Found,
    alt: Alt,
    whole: Gen,
    one: Gen,
    taken: Seq<(Symbol, Place)>,
    left: Seq<Fact>,
)
    requires
        same_but_at(both, alone, p),
        one.row == whole.row,
        alike(w, whole.alternatives@, taken),
        alike(w, one.alternatives@, taken),
        one.alternatives@.len() > 0,
        whole.alternatives@.len() > 0,
    ensures
        reading::over_facts(w, both.stmts, both.order, p, found, alt, whole, left)
            == reading::over_facts(w, alone.stmts, alone.order, p, found, alt, one, left),
    decreases left.len(),
{
    if left.len() > 0 {
        lemma_branch_facts(w, both, alone, p, found, alt, whole, one, taken, left.skip(1));
        let (a, b) = (whole.alternatives@, one.alternatives@);
        lemma_alike_shared(w, found.sense, a, taken, a.len());
        lemma_alike_shared(w, found.sense, b, taken, b.len());
        let next = reading::with_fact(w, found, whole, alt, left[0]);
        assert(next == reading::with_fact(w, found, one, alt, left[0]));
        lemma_alike(w, both, alone, 0, p + 1, next);
    }
}

} // verus!
