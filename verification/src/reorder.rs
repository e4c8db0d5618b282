//! The loop order: which orders of a query's statements are legal, and the one taken.
//!
//! Ordering the statements is a performance choice among the orders that bind every
//! variable before it is read. [`Deps`] records, per statement, the variables it *can*
//! capture and the ones it can only *read*. It is a graph over variables rather than a
//! list of edges between statements, because which statement captures a variable
//! depends on the order: of two statements that can both capture it, whichever runs
//! first does.
use vstd::prelude::*;

use crate::boxed::seal;
use crate::schema::Symbol;

verus! {

/// Whether a statement stands where the query wrote it, or was invented and has no
/// position a person chose.
#[derive(Debug, Clone, Copy, PartialEq, Eq, Structural)]
pub enum Placement {
    Written,
    Floating,
}

/// What one statement needs bound before it runs, and what it can bind itself.
#[derive(Debug)]
pub struct StmtDeps {
    /// Variables this statement can bind, by capturing them from a key field it
    /// matches.
    pub captures: Box<[Symbol]>,
    /// Variables this statement can only read, so something else must capture them
    /// first.
    pub reads: Box<[Symbol]>,
    pub placement: Placement,
}

/// The dependency graph: one entry per statement, in the order they were collected.
#[derive(Debug)]
pub struct Deps {
    stmts: Box<[StmtDeps]>,
}

/// Some statement of `done` captures `var`.
pub open spec fn bound_by(stmts: Seq<StmtDeps>, done: Seq<usize>, var: Symbol) -> bool {
    exists|j: int|
        0 <= j < done.len() && (#[trigger] done[j]) < stmts.len() && stmts[done[j] as int].captures@.contains(
            var,
        )
}

/// Everything statement `i` reads is captured by a statement of `done`.
pub open spec fn runnable(stmts: Seq<StmtDeps>, done: Seq<usize>, i: int) -> bool {
    forall|r: int|
        0 <= r < stmts[i].reads@.len() ==> bound_by(stmts, done, #[trigger] stmts[i].reads@[r])
}

/// `order` names every statement once.
pub open spec fn is_order(n: nat, order: Seq<usize>) -> bool {
    &&& order.len() == n
    &&& forall|i: int| 0 <= i < order.len() ==> (#[trigger] order[i]) < n
    &&& order.no_duplicates()
}

/// `order` names every statement once, and binds every variable before it is read.
pub open spec fn legal(stmts: Seq<StmtDeps>, order: Seq<usize>) -> bool {
    &&& is_order(stmts.len(), order)
    &&& forall|i: int| 0 <= i < order.len() ==> runnable(stmts, order.take(i), #[trigger] order[i] as int)
}

/// The statements below `n` that are not in `done` and can run after it, in order.
pub open spec fn layer_below(stmts: Seq<StmtDeps>, done: Seq<usize>, n: nat) -> Seq<usize>
    decreases n,
{
    if n == 0 {
        Seq::empty()
    } else if !done.contains((n - 1) as usize) && runnable(stmts, done, n - 1) {
        layer_below(stmts, done, (n - 1) as nat).push((n - 1) as usize)
    } else {
        layer_below(stmts, done, (n - 1) as nat)
    }
}

/// Every statement that can run once those of `done` have.
pub open spec fn next_layer(stmts: Seq<StmtDeps>, done: Seq<usize>) -> Seq<usize> {
    layer_below(stmts, done, stmts.len())
}

/// How many statements are left after `done`.
pub open spec fn remaining(stmts: Seq<StmtDeps>, done: Seq<usize>) -> nat {
    if done.len() < stmts.len() {
        (stmts.len() - done.len()) as nat
    } else {
        0
    }
}

/// The layers that follow `done`: each is what its predecessors make runnable. `None`
/// when some statements are left and none of them can run.
pub open spec fn layers_after(stmts: Seq<StmtDeps>, done: Seq<usize>) -> Option<Seq<Seq<usize>>>
    decreases remaining(stmts, done),
{
    if done.len() >= stmts.len() {
        Some(Seq::empty())
    } else if next_layer(stmts, done).len() == 0 {
        None
    } else {
        match layers_after(stmts, done + next_layer(stmts, done)) {
            Some(rest) => Some(seq![next_layer(stmts, done)] + rest),
            None => None,
        }
    }
}

/// The statements of some layers, one layer after the other.
pub open spec fn concatenated(layers: Seq<Seq<usize>>) -> Seq<usize>
    decreases layers.len(),
{
    if layers.len() == 0 {
        Seq::empty()
    } else {
        layers[0] + concatenated(layers.drop_first())
    }
}

/// The order the statements were collected in.
pub open spec fn identity(n: nat) -> Seq<usize> {
    Seq::new(n, |i: int| i as usize)
}

/// The order taken: the one collected where that is legal, else the layers one after
/// the other where there are any.
pub open spec fn chosen_order(stmts: Seq<StmtDeps>) -> Seq<usize> {
    if legal(stmts, identity(stmts.len())) {
        identity(stmts.len())
    } else {
        match layers_after(stmts, Seq::empty()) {
            Some(layers) => concatenated(layers),
            None => identity(stmts.len()),
        }
    }
}

impl Deps {
    /// The statements.
    pub closed spec fn stmts(self) -> Seq<StmtDeps> {
        self.stmts@
    }

    pub fn new(stmts: Vec<StmtDeps>) -> (deps: Self)
        ensures
            deps.stmts() == stmts@,
    {
        Self { stmts: seal(stmts) }
    }

    pub fn len(&self) -> (n: usize)
        ensures
            n == self.stmts().len(),
    {
        self.stmts.len()
    }

    pub fn is_empty(&self) -> (empty: bool)
        ensures
            empty == (self.stmts().len() == 0),
    {
        self.stmts.len() == 0
    }

    pub fn stmt(&self, index: usize) -> (stmt: Option<&StmtDeps>)
        ensures
            match stmt {
                Some(found) => index < self.stmts().len() && *found == self.stmts()[index as int],
                None => index >= self.stmts().len(),
            },
    {
        if index < self.stmts.len() {
            Some(&self.stmts[index])
        } else {
            None
        }
    }

    /// Whether statement `i` can run, given what the ones before it capture.
    fn can_run(&self, i: usize, bound: &Vec<Symbol>, Ghost(done): Ghost<Seq<usize>>) -> (yes: bool)
        requires
            i < self.stmts().len(),
            forall|v: Symbol| bound@.contains(v) <==> bound_by(self.stmts(), done, v),
        ensures
            yes == runnable(self.stmts(), done, i as int),
    {
        let reads: &[Symbol] = &self.stmts[i].reads;
        let mut r: usize = 0;
        while r < reads.len()
            invariant
                i < self.stmts().len(),
                reads@ == self.stmts()[i as int].reads@,
                r <= reads@.len(),
                forall|v: Symbol| bound@.contains(v) <==> bound_by(self.stmts(), done, v),
                forall|k: int|
                    0 <= k < r ==> bound_by(
                        self.stmts(),
                        done,
                        #[trigger] self.stmts()[i as int].reads@[k],
                    ),
            decreases reads@.len() - r,
        {
            if !contains(bound, reads[r]) {
                return false;
            }
            r += 1;
        }
        true
    }

    /// Add what statement `i` captures to what is bound.
    fn capture(&self, i: usize, bound: &mut Vec<Symbol>, Ghost(done): Ghost<Seq<usize>>)
        requires
            i < self.stmts().len(),
            forall|v: Symbol| old(bound)@.contains(v) <==> bound_by(self.stmts(), done, v),
        ensures
            forall|v: Symbol|
                final(bound)@.contains(v) <==> bound_by(self.stmts(), done.push(i), v),
    {
        let ghost before = bound@;
        extend(bound, &self.stmts[i].captures);
        proof {
            let next = done.push(i);
            let captures = self.stmts()[i as int].captures@;
            assert forall|v: Symbol| bound@.contains(v) <==> bound_by(self.stmts(), next, v) by {
                if bound@.contains(v) {
                    let k = choose|k: int| 0 <= k < bound@.len() && bound@[k] == v;
                    if k < before.len() {
                        assert(before[k] == v);
                        assert(bound_by(self.stmts(), done, v));
                        let j = choose|j: int|
                            0 <= j < done.len() && (#[trigger] done[j]) < self.stmts().len()
                                && self.stmts()[done[j] as int].captures@.contains(v);
                        assert(next[j] == done[j]);
                    } else {
                        assert(captures[k - before.len()] == v);
                        assert(next[done.len() as int] == i);
                    }
                }
                if bound_by(self.stmts(), next, v) {
                    let j = choose|j: int|
                        0 <= j < next.len() && (#[trigger] next[j]) < self.stmts().len()
                            && self.stmts()[next[j] as int].captures@.contains(v);
                    if j < done.len() {
                        assert(done[j] == next[j]);
                        assert(before.contains(v));
                        let k = choose|k: int| 0 <= k < before.len() && before[k] == v;
                        assert(bound@[k] == v);
                    } else {
                        let k = choose|k: int| 0 <= k < captures.len() && captures[k] == v;
                        assert(bound@[before.len() + k] == v);
                    }
                }
            }
        }
    }

    /// Whether `order` binds every variable before it is read. Anything that is not an
    /// order of all the statements is not one.
    pub fn respects(&self, order: &[usize]) -> (yes: bool)
        ensures
            yes == legal(self.stmts(), order@),
    {
        if order.len() != self.stmts.len() {
            return false;
        }
        let n: usize = self.stmts.len();
        let mut seen: Vec<bool> = filled(n);
        let mut bound: Vec<Symbol> = Vec::new();
        let mut i: usize = 0;
        while i < order.len()
            invariant
                i <= order@.len(),
                n == self.stmts().len(),
                order@.len() == n,
                seen@.len() == n,
                forall|k: int| 0 <= k < n ==> (#[trigger] seen@[k] <==> order@.take(i as int).contains(k as usize)),
                forall|k: int| 0 <= k < i ==> (#[trigger] order@[k]) < n,
                order@.take(i as int).no_duplicates(),
                forall|k: int|
                    0 <= k < i ==> runnable(self.stmts(), order@.take(k), #[trigger] order@[k] as int),
                forall|v: Symbol|
                    bound@.contains(v) <==> bound_by(self.stmts(), order@.take(i as int), v),
            decreases order@.len() - i,
        {
            let stmt: usize = order[i];
            let ghost done = order@.take(i as int);
            proof {
                assert(order@.take(i + 1) =~= done.push(stmt));
            }
            if stmt >= n {
                return false;
            }
            if seen[stmt] {
                proof {
                    let k = choose|k: int| 0 <= k < done.len() && done[k] == stmt;
                    assert(order@[k] == order@[i as int]);
                }
                return false;
            }
            if !self.can_run(stmt, &bound, Ghost(done)) {
                return false;
            }
            seen.set(stmt, true);
            self.capture(stmt, &mut bound, Ghost(done));
            proof {
                let next = order@.take(i + 1);
                assert forall|k: int| 0 <= k < n implies (#[trigger] seen@[k] <==> next.contains(
                    k as usize,
                )) by {
                    if done.contains(k as usize) {
                        let m = choose|m: int| 0 <= m < done.len() && done[m] == k as usize;
                        assert(next[m] == k as usize);
                    }
                    if next.contains(k as usize) && k != stmt {
                        let m = choose|m: int| 0 <= m < next.len() && next[m] == k as usize;
                        assert(done[m] == k as usize);
                    }
                    if k == stmt {
                        assert(next[i as int] == stmt);
                    }
                }
                assert(next.no_duplicates()) by {
                    assert forall|a: int, b: int|
                        0 <= a < b < next.len() implies next[a] != next[b] by {
                        if b == i {
                            assert(done[a] == next[a]);
                            assert(done.contains(next[a]));
                        } else {
                            assert(done[a] == next[a] && done[b] == next[b]);
                        }
                    }
                }
            }
            i += 1;
        }
        proof {
            assert(order@.take(i as int) =~= order@);
        }
        true
    }

    /// Layers of statements, each orderable freely once the layers before it have run.
    /// `None` when no order works: a variable nothing captures, or a cycle of reads.
    pub fn antichains(&self) -> (layers: Option<Vec<Vec<usize>>>)
        ensures
            match (layers, layers_after(self.stmts(), Seq::empty())) {
                (Some(found), Some(expected)) => found@.map_values(|l: Vec<usize>| l@) == expected,
                (None, None) => true,
                _ => false,
            },
    {
        let n: usize = self.stmts.len();
        let mut scheduled: Vec<bool> = filled(n);
        let mut bound: Vec<Symbol> = Vec::new();
        let mut layers: Vec<Vec<usize>> = Vec::new();
        let mut left: usize = n;
        let ghost mut done: Seq<usize> = Seq::empty();
        proof {
            assert(layers@.map_values(|l: Vec<usize>| l@) =~= Seq::empty());
        }

        while left > 0
            invariant
                n == self.stmts().len(),
                left == n - done.len(),
                is_partial(n as nat, done),
                scheduled@.len() == n,
                forall|k: int| 0 <= k < n ==> (#[trigger] scheduled@[k] <==> done.contains(k as usize)),
                forall|v: Symbol| bound@.contains(v) <==> bound_by(self.stmts(), done, v),
                match (layers_after(self.stmts(), Seq::empty()), layers_after(self.stmts(), done)) {
                    (Some(all), Some(rest)) => all == layers@.map_values(|l: Vec<usize>| l@) + rest,
                    (None, None) => true,
                    _ => false,
                },
            decreases left,
        {
            let mut layer: Vec<usize> = Vec::new();
            let mut i: usize = 0;
            while i < n
                invariant
                    i <= n,
                    n == self.stmts().len(),
                    scheduled@.len() == n,
                    forall|k: int|
                        0 <= k < n ==> (#[trigger] scheduled@[k] <==> done.contains(k as usize)),
                    forall|v: Symbol| bound@.contains(v) <==> bound_by(self.stmts(), done, v),
                    layer@ == layer_below(self.stmts(), done, i as nat),
                decreases n - i,
            {
                if !scheduled[i] && self.can_run(i, &bound, Ghost(done)) {
                    layer.push(i);
                }
                i += 1;
            }
            if layer.len() == 0 {
                return None;
            }
            proof {
                lemma_layer(self.stmts(), done, n as nat);
                lemma_partial_extend(n as nat, done, layer@);
            }
            let ghost start = done;
            let mut k: usize = 0;
            while k < layer.len()
                invariant
                    k <= layer@.len(),
                    n == self.stmts().len(),
                    is_partial(n as nat, start + layer@),
                    done == start + layer@.take(k as int),
                    left == n - done.len(),
                    scheduled@.len() == n,
                    forall|m: int|
                        0 <= m < n ==> (#[trigger] scheduled@[m] <==> done.contains(m as usize)),
                    forall|v: Symbol| bound@.contains(v) <==> bound_by(self.stmts(), done, v),
                decreases layer@.len() - k,
            {
                let stmt: usize = layer[k];
                proof {
                    let whole = start + layer@;
                    assert(whole[start.len() + k] == stmt);
                    assert(start + layer@.take(k + 1) =~= done.push(stmt));
                    lemma_partial_len(n as nat, whole);
                }
                scheduled.set(stmt, true);
                left -= 1;
                self.capture(stmt, &mut bound, Ghost(done));
                proof {
                    let before = done;
                    done = done.push(stmt);
                    assert forall|m: int| 0 <= m < n implies (#[trigger] scheduled@[m]
                        <==> done.contains(m as usize)) by {
                        if before.contains(m as usize) {
                            let x = choose|x: int| 0 <= x < before.len() && before[x] == m as usize;
                            assert(done[x] == m as usize);
                        }
                        if done.contains(m as usize) && m != stmt {
                            let x = choose|x: int| 0 <= x < done.len() && done[x] == m as usize;
                            assert(before[x] == m as usize);
                        }
                        if m == stmt {
                            assert(done[before.len() as int] == stmt);
                        }
                    }
                }
                k += 1;
            }
            proof {
                assert(layer@.take(k as int) =~= layer@);
                assert(done =~= start + next_layer(self.stmts(), start));
                let shown = layers@.map_values(|l: Vec<usize>| l@);
                if let Some(rest) = layers_after(self.stmts(), done) {
                    assert(shown + (seq![layer@] + rest) =~= shown.push(layer@) + rest);
                }
            }
            let ghost shown = layers@.map_values(|l: Vec<usize>| l@);
            let ghost added = layer@;
            layers.push(layer);
            proof {
                assert(layers@.map_values(|l: Vec<usize>| l@) =~= shown.push(added));
            }
        }
        proof {
            let shown = layers@.map_values(|l: Vec<usize>| l@);
            assert(shown + Seq::<Seq<usize>>::empty() =~= shown);
        }
        Some(layers)
    }
}

/// Whether `var` is among `vars`.
pub fn contains(vars: &Vec<Symbol>, var: Symbol) -> (found: bool)
    ensures
        found == vars@.contains(var),
{
    let mut i: usize = 0;
    while i < vars.len()
        invariant
            i <= vars@.len(),
            forall|j: int| 0 <= j < i ==> vars@[j] != var,
        decreases vars@.len() - i,
    {
        if vars[i] == var {
            return true;
        }
        i += 1;
    }
    false
}

/// Append every variable of `more`.
pub fn extend(vars: &mut Vec<Symbol>, more: &[Symbol])
    ensures
        final(vars)@ == old(vars)@ + more@,
{
    let mut i: usize = 0;
    while i < more.len()
        invariant
            i <= more@.len(),
            vars@ == old(vars)@ + more@.take(i as int),
        decreases more@.len() - i,
    {
        vars.push(more[i]);
        i += 1;
        proof {
            assert(vars@ =~= old(vars)@ + more@.take(i as int));
        }
    }
    proof {
        assert(more@.take(i as int) =~= more@);
    }
}

fn filled(n: usize) -> (flags: Vec<bool>)
    ensures
        flags@.len() == n,
        forall|i: int| 0 <= i < n ==> !(#[trigger] flags@[i]),
{
    let mut flags: Vec<bool> = Vec::new();
    let mut i: usize = 0;
    while i < n
        invariant
            i <= n,
            flags@.len() == i,
            forall|j: int| 0 <= j < i ==> !(#[trigger] flags@[j]),
        decreases n - i,
    {
        flags.push(false);
        i += 1;
    }
    flags
}

/// Choose the order the statements run in: the one they were collected in, where that
/// binds before it reads; else what has to move is moved, layer by layer. Where no
/// order works the collected one comes back, and whoever checks it reports why.
pub fn reorder(deps: &Deps) -> (order: Vec<usize>)
    ensures
        order@ == chosen_order(deps.stmts()),
{
    let n: usize = deps.len();
    let mut order: Vec<usize> = Vec::new();
    let mut i: usize = 0;
    while i < n
        invariant
            i <= n,
            order@ == identity(i as nat),
        decreases n - i,
    {
        order.push(i);
        i += 1;
        proof {
            assert(order@ =~= identity(i as nat));
        }
    }
    if deps.respects(&order) {
        return order;
    }
    match deps.antichains() {
        None => order,
        Some(layers) => {
            let ghost shown = layers@.map_values(|l: Vec<usize>| l@);
            let mut flat: Vec<usize> = Vec::new();
            let mut l: usize = 0;
            proof {
                assert(shown.skip(0) =~= shown);
            }
            while l < layers.len()
                invariant
                    l <= layers@.len(),
                    shown == layers@.map_values(|l: Vec<usize>| l@),
                    concatenated(shown) == flat@ + concatenated(shown.skip(l as int)),
                decreases layers@.len() - l,
            {
                let mut k: usize = 0;
                let ghost before = flat@;
                while k < layers[l].len()
                    invariant
                        l < layers@.len(),
                        k <= layers@[l as int]@.len(),
                        flat@ == before + layers@[l as int]@.take(k as int),
                    decreases layers@[l as int]@.len() - k,
                {
                    flat.push(layers[l][k]);
                    k += 1;
                    proof {
                        assert(flat@ =~= before + layers@[l as int]@.take(k as int));
                    }
                }
                proof {
                    assert(layers@[l as int]@.take(k as int) =~= shown[l as int]);
                    assert(shown.skip(l as int).drop_first() =~= shown.skip(l + 1));
                    assert(shown.skip(l as int)[0] == shown[l as int]);
                    assert(before + (shown[l as int] + concatenated(shown.skip(l + 1))) =~= flat@
                        + concatenated(shown.skip(l + 1)));
                }
                l += 1;
            }
            proof {
                assert(shown.skip(l as int) =~= Seq::empty());
                assert(flat@ + concatenated(shown.skip(l as int)) =~= flat@);
            }
            flat
        },
    }
}

// ---- laws -------------------------------------------------------------------

/// Statements that are all there, none of them twice.
pub open spec fn is_partial(n: nat, done: Seq<usize>) -> bool {
    &&& forall|i: int| 0 <= i < done.len() ==> (#[trigger] done[i]) < n
    &&& done.no_duplicates()
}

proof fn lemma_partial_len(n: nat, done: Seq<usize>)
    requires
        is_partial(n, done),
    ensures
        done.len() <= n,
    decreases n,
{
    if n == 0 {
        if done.len() > 0 {
            assert(done[0] < 0);
        }
    } else {
        let m = (n - 1) as nat;
        if done.contains(m as usize) && m as usize == m {
            let k = choose|k: int| 0 <= k < done.len() && done[k] == m as usize;
            let rest = done.remove(k);
            assert forall|i: int| 0 <= i < rest.len() implies (#[trigger] rest[i]) < m by {
                let from = if i < k { i } else { i + 1 };
                assert(rest[i] == done[from]);
                assert(done[from] != done[k]);
            }
            assert forall|a: int, b: int| 0 <= a < b < rest.len() implies rest[a] != rest[b] by {
                let fa = if a < k { a } else { a + 1 };
                let fb = if b < k { b } else { b + 1 };
                assert(rest[a] == done[fa] && rest[b] == done[fb]);
            }
            lemma_partial_len(m, rest);
        } else {
            assert forall|i: int| 0 <= i < done.len() implies (#[trigger] done[i]) < m by {
                if done[i] >= m {
                    assert(done[i] == m);
                    assert(done.contains(m as usize));
                }
            }
            lemma_partial_len(m, done);
        }
    }
}

proof fn lemma_layer(stmts: Seq<StmtDeps>, done: Seq<usize>, n: nat)
    requires
        n <= usize::MAX,
    ensures
        ({
            let layer = layer_below(stmts, done, n);
            &&& forall|i: int|
                0 <= i < layer.len() ==> (#[trigger] layer[i]) < n && !done.contains(layer[i])
                    && runnable(stmts, done, layer[i] as int)
            &&& layer.no_duplicates()
            &&& forall|k: int|
                0 <= k < n && !done.contains(k as usize) && runnable(stmts, done, k)
                    ==> #[trigger] layer.contains(k as usize)
        }),
    decreases n,
{
    if n > 0 {
        let m = (n - 1) as nat;
        lemma_layer(stmts, done, m);
        let rest = layer_below(stmts, done, m);
        let layer = layer_below(stmts, done, n);
        assert forall|k: int|
            0 <= k < n && !done.contains(k as usize) && runnable(
                stmts,
                done,
                k,
            ) implies #[trigger] layer.contains(k as usize) by {
            if k < m {
                assert(rest.contains(k as usize));
                let x = choose|x: int| 0 <= x < rest.len() && rest[x] == k as usize;
                assert(layer[x] == k as usize);
            } else {
                assert(layer[rest.len() as int] == k as usize);
            }
        }
    }
}

proof fn lemma_partial_extend(n: nat, done: Seq<usize>, layer: Seq<usize>)
    requires
        is_partial(n, done),
        forall|i: int| 0 <= i < layer.len() ==> (#[trigger] layer[i]) < n && !done.contains(layer[i]),
        layer.no_duplicates(),
    ensures
        is_partial(n, done + layer),
{
    let all = done + layer;
    assert forall|i: int| 0 <= i < all.len() implies (#[trigger] all[i]) < n by {
        if i >= done.len() {
            assert(all[i] == layer[i - done.len()]);
        }
    }
    assert forall|a: int, b: int| 0 <= a < b < all.len() implies all[a] != all[b] by {
        if a < done.len() && b >= done.len() {
            assert(all[b] == layer[b - done.len()]);
            assert(done.contains(all[a]));
        } else if a >= done.len() {
            assert(all[a] == layer[a - done.len()] && all[b] == layer[b - done.len()]);
        }
    }
}

/// More statements done bind no fewer variables.
proof fn lemma_runnable_grows(stmts: Seq<StmtDeps>, done: Seq<usize>, more: Seq<usize>, i: int)
    requires
        runnable(stmts, done, i),
        forall|j: int| 0 <= j < done.len() ==> more.contains(#[trigger] done[j]),
    ensures
        runnable(stmts, more, i),
{
    assert forall|r: int| 0 <= r < stmts[i].reads@.len() implies bound_by(
        stmts,
        more,
        #[trigger] stmts[i].reads@[r],
    ) by {
        let v = stmts[i].reads@[r];
        assert(bound_by(stmts, done, v));
        let j = choose|j: int|
            0 <= j < done.len() && (#[trigger] done[j]) < stmts.len()
                && stmts[done[j] as int].captures@.contains(v);
        assert(more.contains(done[j]));
        let k = choose|k: int| 0 <= k < more.len() && more[k] == done[j];
        assert(more[k] < stmts.len());
    }
}

proof fn lemma_layers_legal(stmts: Seq<StmtDeps>, done: Seq<usize>, layers: Seq<Seq<usize>>)
    requires
        stmts.len() <= usize::MAX,
        is_partial(stmts.len(), done),
        layers_after(stmts, done) == Some(layers),
        forall|i: int| 0 <= i < done.len() ==> runnable(stmts, done.take(i), #[trigger] done[i] as int),
    ensures
        legal(stmts, done + concatenated(layers)),
    decreases remaining(stmts, done),
{
    lemma_partial_len(stmts.len(), done);
    if done.len() >= stmts.len() {
        assert(done + concatenated(layers) =~= done);
    } else {
        let layer = next_layer(stmts, done);
        lemma_layer(stmts, done, stmts.len());
        lemma_partial_extend(stmts.len(), done, layer);
        let next = done + layer;
        let rest = layers_after(stmts, next)->0;
        assert(layers == seq![layer] + rest);
        assert(layers.drop_first() =~= rest);
        assert forall|i: int| 0 <= i < next.len() implies runnable(
            stmts,
            next.take(i),
            #[trigger] next[i] as int,
        ) by {
            if i < done.len() {
                assert(next.take(i) =~= done.take(i));
            } else {
                assert(next[i] == layer[i - done.len()]);
                assert forall|j: int| 0 <= j < done.len() implies next.take(i).contains(
                    #[trigger] done[j],
                ) by {
                    assert(next.take(i)[j] == done[j]);
                }
                lemma_runnable_grows(stmts, done, next.take(i), next[i] as int);
            }
        }
        lemma_layers_legal(stmts, next, rest);
        assert(done + concatenated(layers) =~= next + concatenated(rest));
    }
}

/// A layering is an order that respects the graph: its layers, one after the other,
/// bind every variable before it is read.
pub proof fn law_layering_is_legal(stmts: Seq<StmtDeps>, layers: Seq<Seq<usize>>)
    requires
        stmts.len() <= usize::MAX,
        layers_after(stmts, Seq::empty()) == Some(layers),
    ensures
        legal(stmts, concatenated(layers)),
{
    lemma_layers_legal(stmts, Seq::empty(), layers);
    assert(Seq::<usize>::empty() + concatenated(layers) =~= concatenated(layers));
}

proof fn lemma_stuck(stmts: Seq<StmtDeps>, done: Seq<usize>, order: Seq<usize>)
    requires
        stmts.len() <= usize::MAX,
        is_partial(stmts.len(), done),
        layers_after(stmts, done) is None,
    ensures
        !legal(stmts, order),
    decreases remaining(stmts, done),
{
    lemma_partial_len(stmts.len(), done);
    let layer = next_layer(stmts, done);
    lemma_layer(stmts, done, stmts.len());
    if layer.len() == 0 && legal(stmts, order) {
        lemma_first_missing(stmts.len(), done, order, 0);
        let i = choose|i: int|
            0 <= i < order.len() && !done.contains(#[trigger] order[i]) && (forall|j: int|
                0 <= j < i ==> done.contains(#[trigger] order[j]));
        assert forall|j: int| 0 <= j < i implies done.contains(#[trigger] order.take(i)[j]) by {
            assert(order.take(i)[j] == order[j]);
        }
        lemma_runnable_grows(stmts, order.take(i), done, order[i] as int);
        let k = order[i] as int;
        assert(layer.contains(k as usize));
        assert(false);
    } else if layer.len() > 0 {
        lemma_partial_extend(stmts.len(), done, layer);
        lemma_stuck(stmts, done + layer, order);
    }
}

proof fn lemma_first_missing(n: nat, done: Seq<usize>, order: Seq<usize>, from: int)
    requires
        is_partial(n, done),
        done.len() < n,
        is_order(n, order),
        0 <= from <= order.len(),
        forall|j: int| 0 <= j < from ==> done.contains(#[trigger] order[j]),
    ensures
        exists|i: int|
            0 <= i < order.len() && !done.contains(#[trigger] order[i]) && (forall|j: int|
                0 <= j < i ==> done.contains(#[trigger] order[j])),
    decreases order.len() - from,
{
    if from == order.len() {
        assert forall|x: usize| order.contains(x) implies done.contains(x) by {
            let k = choose|k: int| 0 <= k < order.len() && order[k] == x;
            assert(done.contains(order[k]));
        }
        lemma_within(order, done);
        assert(false);
    } else if done.contains(order[from]) {
        lemma_first_missing(n, done, order, from + 1);
    } else {
        assert(!done.contains(order[from]));
    }
}

proof fn lemma_within(a: Seq<usize>, b: Seq<usize>)
    requires
        a.no_duplicates(),
        forall|x: usize| a.contains(x) ==> b.contains(x),
    ensures
        a.len() <= b.len(),
    decreases a.len(),
{
    if a.len() > 0 {
        let x = a.last();
        assert(a.contains(x));
        let k = choose|k: int| 0 <= k < b.len() && b[k] == x;
        let (c, d) = (a.drop_last(), b.remove(k));
        assert forall|y: usize| c.contains(y) implies d.contains(y) by {
            let i = choose|i: int| 0 <= i < c.len() && c[i] == y;
            assert(a[i] == y);
            assert(a.contains(y));
            let j = choose|j: int| 0 <= j < b.len() && b[j] == y;
            assert(j != k);
            let at = if j < k { j } else { j - 1 };
            assert(d[at] == y);
        }
        lemma_within(c, d);
    }
}

/// There is a layering exactly when some order is legal.
pub proof fn law_layering_exists_iff_legal(stmts: Seq<StmtDeps>)
    requires
        stmts.len() <= usize::MAX,
    ensures
        layers_after(stmts, Seq::empty()) is Some <==> exists|order: Seq<usize>|
            legal(stmts, order),
{
    if layers_after(stmts, Seq::empty()) is Some {
        law_layering_is_legal(stmts, layers_after(stmts, Seq::empty())->0);
    } else if exists|order: Seq<usize>| legal(stmts, order) {
        let order = choose|order: Seq<usize>| legal(stmts, order);
        lemma_stuck(stmts, Seq::empty(), order);
    }
}

/// The order taken names every statement once; it is legal wherever any order is; and
/// an order that already works is left alone.
pub proof fn law_chosen_order(stmts: Seq<StmtDeps>)
    requires
        stmts.len() <= usize::MAX,
    ensures
        is_order(stmts.len(), chosen_order(stmts)),
        (exists|order: Seq<usize>| legal(stmts, order)) ==> legal(stmts, chosen_order(stmts)),
        legal(stmts, identity(stmts.len())) ==> chosen_order(stmts) == identity(stmts.len()),
{
    law_layering_exists_iff_legal(stmts);
    if layers_after(stmts, Seq::empty()) is Some {
        law_layering_is_legal(stmts, layers_after(stmts, Seq::empty())->0);
    }
}

/// Within a layer the statements may run in any order: each of them reads only what
/// the layers before it bind.
pub proof fn law_layers_are_antichains(stmts: Seq<StmtDeps>, done: Seq<usize>, i: int)
    requires
        stmts.len() <= usize::MAX,
        0 <= i < next_layer(stmts, done).len(),
    ensures
        runnable(stmts, done, next_layer(stmts, done)[i] as int),
{
    lemma_layer(stmts, done, stmts.len());
}

/// The same layers in turn, each in any order of its own.
pub open spec fn rearranged(layers: Seq<Seq<usize>>, arranged: Seq<Seq<usize>>) -> bool {
    &&& arranged.len() == layers.len()
    &&& forall|i: int|
        0 <= i < layers.len() ==> (#[trigger] arranged[i]).to_multiset()
            == layers[i].to_multiset()
}

/// One layer in another order holds the same statements, each once.
proof fn lemma_rearranged(layer: Seq<usize>, other: Seq<usize>)
    requires
        other.to_multiset() == layer.to_multiset(),
        layer.no_duplicates(),
    ensures
        other.len() == layer.len(),
        other.no_duplicates(),
        forall|x: usize| other.contains(x) == layer.contains(x),
{
    broadcast use vstd::seq_lib::group_to_multiset_ensures;

    layer.lemma_multiset_has_no_duplicates();
    other.lemma_multiset_has_no_duplicates_conv();
    assert(other.to_multiset().len() == other.len());
    assert(layer.to_multiset().len() == layer.len());
    assert forall|x: usize| other.contains(x) == layer.contains(x) by {
        assert(other.contains(x) <==> other.to_multiset().count(x) > 0);
        assert(layer.contains(x) <==> layer.to_multiset().count(x) > 0);
    }
}

proof fn lemma_rearranged_legal(
    stmts: Seq<StmtDeps>,
    done: Seq<usize>,
    layers: Seq<Seq<usize>>,
    before: Seq<usize>,
    arranged: Seq<Seq<usize>>,
)
    requires
        stmts.len() <= usize::MAX,
        is_partial(stmts.len(), done),
        layers_after(stmts, done) == Some(layers),
        rearranged(layers, arranged),
        before.len() == done.len(),
        before.no_duplicates(),
        forall|x: usize| before.contains(x) == done.contains(x),
        forall|i: int|
            0 <= i < before.len() ==> runnable(
                stmts,
                before.take(i),
                #[trigger] before[i] as int,
            ),
    ensures
        legal(stmts, before + concatenated(arranged)),
    decreases remaining(stmts, done),
{
    lemma_partial_len(stmts.len(), done);
    assert forall|i: int| 0 <= i < before.len() implies (#[trigger] before[i]) < stmts.len() by {
        assert(before.contains(before[i]));
        let j = choose|j: int| 0 <= j < done.len() && done[j] == before[i];
        assert(done[j] < stmts.len());
    }
    if done.len() >= stmts.len() {
        assert(before + concatenated(arranged) =~= before);
    } else {
        let layer = next_layer(stmts, done);
        lemma_layer(stmts, done, stmts.len());
        lemma_partial_extend(stmts.len(), done, layer);
        let next = done + layer;
        let rest = layers_after(stmts, next)->0;
        assert(layers == seq![layer] + rest);
        assert(layers[0] == layer);
        assert(layers.drop_first() =~= rest);
        let mine = arranged[0];
        let others = arranged.drop_first();
        assert(mine.to_multiset() == layers[0].to_multiset());
        lemma_rearranged(layer, mine);
        assert forall|i: int| 0 <= i < rest.len() implies (#[trigger] others[i]).to_multiset()
            == rest[i].to_multiset() by {
            assert(others[i] == arranged[i + 1] && rest[i] == layers[i + 1]);
        }
        let so_far = before + mine;
        assert forall|i: int|
            0 <= i < mine.len() implies (#[trigger] mine[i]) < stmts.len() && !before.contains(
            mine[i],
        ) && runnable(stmts, done, mine[i] as int) by {
            assert(mine.contains(mine[i]));
            let j = choose|j: int| 0 <= j < layer.len() && layer[j] == mine[i];
            assert(layer[j] < stmts.len() && !done.contains(layer[j]));
            assert(runnable(stmts, done, layer[j] as int));
        }
        lemma_partial_extend(stmts.len(), before, mine);
        assert forall|x: usize| so_far.contains(x) == next.contains(x) by {
            lemma_either(before, mine, x);
            lemma_either(done, layer, x);
        }
        assert forall|i: int| 0 <= i < so_far.len() implies runnable(
            stmts,
            so_far.take(i),
            #[trigger] so_far[i] as int,
        ) by {
            if i < before.len() {
                assert(so_far.take(i) =~= before.take(i));
                assert(so_far[i] == before[i]);
            } else {
                assert(so_far[i] == mine[i - before.len()]);
                assert forall|j: int| 0 <= j < done.len() implies so_far.take(i).contains(
                    #[trigger] done[j],
                ) by {
                    assert(done.contains(done[j]));
                    let k = choose|k: int| 0 <= k < before.len() && before[k] == done[j];
                    assert(so_far.take(i)[k] == done[j]);
                }
                lemma_runnable_grows(stmts, done, so_far.take(i), so_far[i] as int);
            }
        }
        lemma_rearranged_legal(stmts, next, rest, so_far, others);
        assert(before + concatenated(arranged) =~= so_far + concatenated(others));
    }
}

proof fn lemma_either(a: Seq<usize>, b: Seq<usize>, x: usize)
    ensures
        (a + b).contains(x) == (a.contains(x) || b.contains(x)),
{
    let both = a + b;
    if both.contains(x) {
        let i = choose|i: int| 0 <= i < both.len() && both[i] == x;
        if i < a.len() {
            assert(a[i] == x);
        } else {
            assert(b[i - a.len()] == x);
        }
    }
    if a.contains(x) {
        let i = choose|i: int| 0 <= i < a.len() && a[i] == x;
        assert(both[i] == x);
    }
    if b.contains(x) {
        let i = choose|i: int| 0 <= i < b.len() && b[i] == x;
        assert(both[a.len() + i] == x);
    }
}

/// Every order that lists the layers in turn, each in any order of its own, binds every
/// variable before it is read.
pub proof fn law_a_layer_runs_in_any_order(
    stmts: Seq<StmtDeps>,
    layers: Seq<Seq<usize>>,
    arranged: Seq<Seq<usize>>,
)
    requires
        stmts.len() <= usize::MAX,
        layers_after(stmts, Seq::empty()) == Some(layers),
        rearranged(layers, arranged),
    ensures
        legal(stmts, concatenated(arranged)),
{
    let none = Seq::<usize>::empty();
    lemma_rearranged_legal(stmts, none, layers, none, arranged);
    assert(none + concatenated(arranged) =~= concatenated(arranged));
}

proof fn lemma_rising(stmts: Seq<StmtDeps>, done: Seq<usize>, n: nat)
    requires
        n <= usize::MAX,
    ensures
        ({
            let layer = layer_below(stmts, done, n);
            &&& forall|i: int| 0 <= i < layer.len() ==> (#[trigger] layer[i]) < n
            &&& forall|i: int, j: int|
                0 <= i < j < layer.len() ==> #[trigger] layer[i] < #[trigger] layer[j]
        }),
    decreases n,
{
    if n > 0 {
        lemma_rising(stmts, done, (n - 1) as nat);
        let rest = layer_below(stmts, done, (n - 1) as nat);
        let layer = layer_below(stmts, done, n);
        assert forall|i: int| 0 <= i < layer.len() implies (#[trigger] layer[i]) < n by {
            if i < rest.len() {
                assert(layer[i] == rest[i]);
            }
        }
        assert forall|i: int, j: int| 0 <= i < j < layer.len() implies #[trigger] layer[i]
            < #[trigger] layer[j] by {
            assert(layer[i] == rest[i]);
            if j < rest.len() {
                assert(layer[j] == rest[j]);
            }
        }
    }
}

proof fn lemma_layer_at(stmts: Seq<StmtDeps>, done: Seq<usize>, layers: Seq<Seq<usize>>, j: int)
    requires
        layers_after(stmts, done) == Some(layers),
        0 <= j < layers.len(),
    ensures
        layers[j] == next_layer(stmts, done + concatenated(layers.take(j))),
        layers[j].len() > 0,
    decreases j,
{
    let first = next_layer(stmts, done);
    if j == 0 {
        assert(layers.take(0) =~= Seq::<Seq<usize>>::empty());
        assert(done + Seq::<usize>::empty() =~= done);
    } else {
        let rest = layers_after(stmts, done + first)->0;
        assert(layers =~= seq![first] + rest);
        lemma_layer_at(stmts, done + first, rest, j - 1);
        assert(layers.take(j).drop_first() =~= rest.take(j - 1));
        assert(layers.take(j)[0] == first);
        let more = concatenated(rest.take(j - 1));
        assert(done + (first + more) =~= done + first + more);
    }
}

/// A layer is everything that can run by then, and nothing else: the statements that no layer
/// before it has and that read only what those bind, in the order they were collected.
pub proof fn law_a_layer_is_everything_that_can_run(
    stmts: Seq<StmtDeps>,
    layers: Seq<Seq<usize>>,
    j: int,
    k: int,
)
    requires
        stmts.len() <= usize::MAX,
        layers_after(stmts, Seq::empty()) == Some(layers),
        0 <= j < layers.len(),
        0 <= k < stmts.len(),
    ensures
        ({
            let done = concatenated(layers.take(j));
            &&& layers[j].len() > 0
            &&& layers[j].contains(k as usize) <==> !done.contains(k as usize) && runnable(
                stmts,
                done,
                k,
            )
            &&& forall|x: int, y: int|
                0 <= x < y < layers[j].len() ==> #[trigger] layers[j][x] < #[trigger] layers[j][y]
        }),
{
    let none = Seq::<usize>::empty();
    let done = concatenated(layers.take(j));
    lemma_layer_at(stmts, none, layers, j);
    assert(none + done =~= done);
    lemma_layer(stmts, done, stmts.len());
    lemma_rising(stmts, done, stmts.len());
    if layers[j].contains(k as usize) {
        let i = choose|i: int| 0 <= i < layers[j].len() && layers[j][i] == k as usize;
        assert(runnable(stmts, done, layers[j][i] as int));
    }
}

} // verus!
