//! A store in memory: the key index as one ordered list, and the facts by id.
use std::collections::BTreeMap;

use byteview::ByteView;

use vstd::prelude::*;

use crate::blob;
use crate::blob::{as_bytes, blob, blob_clone};
use crate::bytes;
use crate::bytes::{append_bytes, less, same_bytes, starts_with};
use crate::error::{ApertureError, StoreError};
use crate::machine;
use crate::plan;
use crate::plan::{
    Entity, Fact, FactId, FactStore, RowScan, MAX_FACT_SEQUENCE, MAX_TAGGABLE_PREDICATE,
};
use crate::schema::{PredicateId, PREDICATE_ID_SIZE};
use crate::tuple;
use crate::tuple::put_big_endian;

verus! {

broadcast use vstd::std_specs::btree::group_btree_axioms;

/// The facts some rows of the index are.
pub open spec fn facts_of(rows: Seq<(ByteView, FactId)>) -> Seq<Fact> {
    rows.map_values(|row: (ByteView, FactId)| plan::fact_of(row.0, row.1))
}

/// A key index with one more fact in it. A fact with the same row makes way.
pub open spec fn indexed(facts: Seq<Fact>, fact: Fact) -> Seq<Fact> {
    facts.filter(|f: Fact| bytes::lex_lt(f.row, fact.row)) + seq![fact] + facts.filter(
        |f: Fact| bytes::lex_lt(fact.row, f.row),
    )
}

/// The row of a fact: its predicate, then its key fields.
pub open spec fn row_of(predicate: PredicateId, key: Seq<u8>) -> Seq<u8> {
    tuple::big_endian(predicate.0 as nat, 4) + key
}

/// The id of a predicate's fact number `sequence`.
pub open spec fn id_of(predicate: PredicateId, sequence: u64) -> FactId {
    FactId::of_bits((predicate.0 * 0x100_0000_0000 + sequence) as u64)
}

/// A store in memory.
pub struct MemStore {
    index: Vec<(ByteView, FactId)>,
    by_id: BTreeMap<u64, (ByteView, ByteView)>,
}

impl MemStore {
    #[verifier::type_invariant]
    spec fn in_order(self) -> bool {
        plan::sorted(facts_of(self.index@))
    }

    pub fn new() -> (store: Self)
        ensures
            store.facts() == Seq::<Fact>::empty(),
            forall|id: FactId| (#[trigger] store.entity(id)) is None,
    {
        let store = Self { index: Vec::new(), by_id: BTreeMap::new() };
        proof {
            assert(facts_of(store.index@) =~= Seq::<Fact>::empty());
        }
        store
    }

    /// Insert a fact without a value, as `predicate`'s fact number `sequence`.
    pub fn insert(&mut self, predicate_id: PredicateId, key_fields: Vec<u8>, sequence: u64)
        requires
            predicate_id.0 <= MAX_TAGGABLE_PREDICATE,
            0 < sequence <= MAX_FACT_SEQUENCE,
            key_fields@.len() + 4 <= blob::MAX_BLOB,
        ensures
            stored(
                *old(self),
                *final(self),
                predicate_id,
                key_fields@,
                sequence,
                Seq::empty(),
            ),
    {
        let none: Vec<u8> = Vec::new();
        let ghost nothing = none@;
        proof {
            assert(nothing == Seq::<u8>::empty());
        }
        self.insert_valued(predicate_id, key_fields, sequence, none);
    }

    /// Insert a fact with both key and value bytes. `sequence` is the fact's number
    /// within its predicate, so that no fact can be filed under an id tagged for
    /// another.
    pub fn insert_valued(
        &mut self,
        predicate_id: PredicateId,
        key_fields: Vec<u8>,
        sequence: u64,
        value: Vec<u8>,
    )
        requires
            predicate_id.0 <= MAX_TAGGABLE_PREDICATE,
            0 < sequence <= MAX_FACT_SEQUENCE,
            key_fields@.len() + 4 <= blob::MAX_BLOB,
            value@.len() <= blob::MAX_BLOB,
        ensures
            stored(*old(self), *final(self), predicate_id, key_fields@, sequence, value@),
    {
        proof {
            use_type_invariant(&*self);
            tuple::lemma_big_endian_len(predicate_id.0 as nat, 4);
        }
        let fact_id: FactId = match FactId::new(predicate_id, sequence) {
            Ok(id) => id,
            Err(_) => return,
        };
        let mut full_key: Vec<u8> = Vec::new();
        put_big_endian(&mut full_key, predicate_id.0 as u64, 4);
        append_bytes(&mut full_key, &key_fields);
        proof {
            assert(full_key@ =~= row_of(predicate_id, key_fields@));
        }
        let row: ByteView = blob(&full_key);
        let ghost fact = plan::fact_of(row, fact_id);
        let ghost before = facts_of(self.index@);

        let mut index: Vec<(ByteView, FactId)> = Vec::new();
        std::mem::swap(&mut index, &mut self.index);
        let mut i: usize = 0;
        while i < index.len() && less(as_bytes(&index[i].0), &full_key)
            invariant
                i <= index@.len(),
                before == facts_of(index@),
                fact.row == full_key@,
                forall|j: int| 0 <= j < i ==> bytes::lex_lt((#[trigger] before[j]).row, fact.row),
            decreases index@.len() - i,
        {
            proof {
                assert(before[i as int].row == blob::blob_bytes(index@[i as int].0));
            }
            i += 1;
        }
        if i < index.len() && same_bytes(as_bytes(&index[i].0), &full_key) {
            proof {
                assert(before[i as int].row == blob::blob_bytes(index@[i as int].0));
            }
            index.set(i, (row, fact_id));
            proof {
                lemma_indexed_over(before, fact, i as int);
                assert(facts_of(index@) =~= before.update(i as int, fact));
            }
        } else {
            proof {
                if i < index@.len() {
                    assert(before[i as int].row == blob::blob_bytes(index@[i as int].0));
                    bytes::lemma_lex_total(before[i as int].row, fact.row);
                }
            }
            index.insert(i, (row, fact_id));
            proof {
                lemma_indexed_at(before, fact, i as int);
                assert(facts_of(index@) =~= before.insert(i as int, fact));
            }
        }
        proof {
            lemma_indexed_sorted(before, fact);
        }
        self.index = index;

        let entity = (blob(&key_fields), blob(&value));
        let mut by_id: BTreeMap<u64, (ByteView, ByteView)> = BTreeMap::new();
        std::mem::swap(&mut by_id, &mut self.by_id);
        by_id.insert(fact_id.raw(), entity);
        self.by_id = by_id;
        proof {
            reveal(stored);
            assert forall|id: FactId| #[trigger]
                self.entity(id) == if id == fact_id {
                    Some((key_fields@, value@))
                } else {
                    old(self).entity(id)
                } by {
                plan::lemma_of_bits(id);
                plan::lemma_of_bits(fact_id);
            }
        }
    }
}

/// What inserting a fact does: its row is in the index, and its two sides are behind its
/// id.
#[verifier::opaque]
pub open spec fn stored(
    before: MemStore,
    after: MemStore,
    predicate: PredicateId,
    key: Seq<u8>,
    sequence: u64,
    value: Seq<u8>,
) -> bool {
    let id = id_of(predicate, sequence);
    &&& after.facts() == indexed(before.facts(), Fact { row: row_of(predicate, key), id })
    &&& forall|other: FactId| #[trigger]
        after.entity(other) == if other == id {
            Some((key, value))
        } else {
            before.entity(other)
        }
}

/// Facts, and the one at `i` replaced by one with the same row.
proof fn lemma_indexed_over(facts: Seq<Fact>, fact: Fact, i: int)
    requires
        plan::sorted(facts),
        0 <= i < facts.len(),
        facts[i].row == fact.row,
    ensures
        indexed(facts, fact) == facts.update(i, fact),
{
    lemma_split(facts, fact, i, i + 1);
    assert(facts.take(i) + seq![fact] + facts.skip(i + 1) =~= facts.update(i, fact));
}

/// Facts, and one more at the place its row belongs.
proof fn lemma_indexed_at(facts: Seq<Fact>, fact: Fact, i: int)
    requires
        plan::sorted(facts),
        0 <= i <= facts.len(),
        forall|j: int| 0 <= j < i ==> bytes::lex_lt((#[trigger] facts[j]).row, fact.row),
        i < facts.len() ==> bytes::lex_lt(fact.row, facts[i].row),
    ensures
        indexed(facts, fact) == facts.insert(i, fact),
{
    lemma_split(facts, fact, i, i);
    assert(facts.take(i) + seq![fact] + facts.skip(i) =~= facts.insert(i, fact));
}

/// Sorted facts are the ones below a row, then the ones above it.
proof fn lemma_split(facts: Seq<Fact>, fact: Fact, i: int, j: int)
    requires
        plan::sorted(facts),
        0 <= i <= j <= facts.len(),
        j <= i + 1,
        j == i + 1 ==> facts[i].row == fact.row,
        j == i ==> (i < facts.len() ==> bytes::lex_lt(fact.row, facts[i].row)) && (forall|k: int|
            0 <= k < i ==> bytes::lex_lt((#[trigger] facts[k]).row, fact.row)),
    ensures
        facts.filter(|f: Fact| bytes::lex_lt(f.row, fact.row)) == facts.take(i),
        facts.filter(|f: Fact| bytes::lex_lt(fact.row, f.row)) == facts.skip(j),
{
    let below = |f: Fact| bytes::lex_lt(f.row, fact.row);
    let above = |f: Fact| bytes::lex_lt(fact.row, f.row);
    assert forall|k: int| 0 <= k < i implies below(#[trigger] facts[k]) && !above(facts[k]) by {
        bytes::lemma_lex_asymmetric(facts[k].row, fact.row);
    }
    assert forall|k: int| j <= k < facts.len() implies above(#[trigger] facts[k]) && !below(
        facts[k],
    ) by {
        if j == i && k > i {
            bytes::lemma_lex_transitive(fact.row, facts[i].row, facts[k].row);
        }
        bytes::lemma_lex_asymmetric(fact.row, facts[k].row);
    }
    if j == i + 1 {
        bytes::lemma_lex_irreflexive(fact.row);
    }
    lemma_filter_range(facts, below, 0, i);
    lemma_filter_range(facts, above, j, facts.len() as int);
    assert(facts.subrange(0, i) =~= facts.take(i));
    assert(facts.subrange(j, facts.len() as int) =~= facts.skip(j));
}

/// Filtering by what holds exactly of a range gives the range.
proof fn lemma_filter_range(s: Seq<Fact>, p: spec_fn(Fact) -> bool, i: int, j: int)
    requires
        0 <= i <= j <= s.len(),
        forall|k: int| 0 <= k < s.len() ==> (p(#[trigger] s[k]) <==> i <= k < j),
    ensures
        s.filter(p) == s.subrange(i, j),
    decreases s.len(),
{
    reveal(Seq::filter);
    if s.len() > 0 {
        let t = s.drop_last();
        let end = if j < s.len() {
            j
        } else {
            t.len() as int
        };
        let start = if i < end {
            i
        } else {
            end
        };
        assert forall|k: int| 0 <= k < t.len() implies (p(#[trigger] t[k]) <==> start <= k < end) by {
            assert(t[k] == s[k]);
        }
        lemma_filter_range(t, p, start, end);
        assert(p(s[s.len() - 1]) <==> i <= s.len() - 1 < j);
        if i <= s.len() - 1 < j {
            assert(t.subrange(start, end).push(s.last()) =~= s.subrange(i, j));
        } else {
            assert(t.subrange(start, end) =~= s.subrange(i, j));
        }
    } else {
        assert(s.subrange(i, j) =~= Seq::<Fact>::empty());
    }
}

/// An index stays in order.
proof fn lemma_indexed_sorted(facts: Seq<Fact>, fact: Fact)
    requires
        plan::sorted(facts),
    ensures
        plan::sorted(indexed(facts, fact)),
{
    let below = |f: Fact| bytes::lex_lt(f.row, fact.row);
    let above = |f: Fact| bytes::lex_lt(fact.row, f.row);
    let (a, b) = (facts.filter(below), facts.filter(above));
    machine::lemma_filter_sorted(facts, below);
    machine::lemma_filter_sorted(facts, above);
    let all = indexed(facts, fact);
    assert forall|i: int, j: int|
        #![trigger all[i], all[j]]
        0 <= i < j < all.len() implies bytes::lex_lt(all[i].row, all[j].row) by {
        if i < a.len() {
            assert(all[i] == a[i]);
        } else if i > a.len() {
            assert(all[i] == b[i - a.len() - 1]);
        }
        if j < a.len() {
            assert(all[j] == a[j]);
        } else if j > a.len() {
            assert(all[j] == b[j - a.len() - 1]);
        }
        if i < a.len() && j > a.len() {
            assert(below(a[i]) && above(b[j - a.len() - 1]));
            bytes::lemma_lex_transitive(all[i].row, fact.row, all[j].row);
        }
    }
}

/// An inserted fact is in the index, with every fact of another row that was there
/// before, and with no other.
pub proof fn law_an_inserted_fact_is_indexed(facts: Seq<Fact>, fact: Fact, other: Fact)
    requires
        plan::sorted(facts),
    ensures
        indexed(facts, fact).contains(other) <==> other == fact || (facts.contains(other)
            && other.row != fact.row),
        plan::sorted(indexed(facts, fact)),
{
    let below = |f: Fact| bytes::lex_lt(f.row, fact.row);
    let above = |f: Fact| bytes::lex_lt(fact.row, f.row);
    let (a, b) = (facts.filter(below), facts.filter(above));
    let all = indexed(facts, fact);
    lemma_indexed_sorted(facts, fact);
    machine::lemma_filter_sorted(facts, below);
    machine::lemma_filter_sorted(facts, above);
    if all.contains(other) {
        let i = choose|i: int| 0 <= i < all.len() && all[i] == other;
        if i < a.len() {
            assert(all[i] == a[i]);
            bytes::lemma_lex_asymmetric(a[i].row, fact.row);
        } else if i > a.len() {
            assert(all[i] == b[i - a.len() - 1]);
            bytes::lemma_lex_asymmetric(fact.row, b[i - a.len() - 1].row);
        }
    }
    if other == fact {
        assert(all[a.len() as int] == fact);
    } else if facts.contains(other) && other.row != fact.row {
        let k = choose|k: int| 0 <= k < facts.len() && facts[k] == other;
        bytes::lemma_lex_total(other.row, fact.row);
        if below(other) {
            facts.lemma_filter_contains(below, k);
            let i = choose|i: int| 0 <= i < a.len() && a[i] == other;
            assert(all[i] == other);
        } else {
            facts.lemma_filter_contains(above, k);
            let i = choose|i: int| 0 <= i < b.len() && b[i] == other;
            assert(all[a.len() + 1 + i] == other);
        }
    }
}

// ---- reading ----------------------------------------------------------------

/// A scan of a [`MemStore`]: the rows it found, and how many of them were read.
pub struct MemScan {
    rows: Vec<(ByteView, FactId)>,
    at: usize,
}

impl RowScan for MemScan {
    closed spec fn remaining(&self) -> Seq<Fact> {
        if self.at <= self.rows@.len() {
            facts_of(self.rows@).skip(self.at as int)
        } else {
            Seq::empty()
        }
    }

    open spec fn may_fail(&self) -> bool {
        false
    }

    fn next_row(&mut self) -> (row: Option<Result<(ByteView, FactId), ApertureError>>) {
        if self.at >= self.rows.len() {
            return None;
        }
        let i: usize = self.at;
        let row = (blob_clone(&self.rows[i].0), self.rows[i].1);
        self.at = i + 1;
        proof {
            assert(self.remaining() =~= old(self).remaining().skip(1));
        }
        Some(Ok(row))
    }
}

impl FactStore for MemStore {
    type Scan = MemScan;

    closed spec fn facts(&self) -> Seq<Fact> {
        if plan::sorted(facts_of(self.index@)) {
            facts_of(self.index@)
        } else {
            Seq::empty()
        }
    }

    closed spec fn entity(&self, id: FactId) -> Option<(Seq<u8>, Seq<u8>)> {
        if self.by_id@.contains_key(id.bits()) {
            let (key, value) = self.by_id@[id.bits()];
            Some((blob::blob_bytes(key), blob::blob_bytes(value)))
        } else {
            None
        }
    }

    open spec fn may_fail(&self) -> bool {
        false
    }

    proof fn facts_are_sorted(&self) {
    }

    fn scan(&self, lo: &[u8], hi: Option<&[u8]>) -> (opened: Result<MemScan, ApertureError>) {
        proof {
            use_type_invariant(self);
        }
        if lo.len() < PREDICATE_ID_SIZE {
            return Err(
                ApertureError::Store(
                    StoreError::ShortScanBound { len: lo.len(), expected: PREDICATE_ID_SIZE },
                ),
            );
        }
        let predicate: &[u8] = vstd::slice::slice_subrange(lo, 0, PREDICATE_ID_SIZE);
        proof {
            assert(predicate@ =~= lo@.take(4));
        }
        let ghost kept = |f: Fact| plan::in_range(f.row, lo@, plan::bound_bytes(hi));
        let ghost facts = facts_of(self.index@);
        let mut rows: Vec<(ByteView, FactId)> = Vec::new();
        let mut i: usize = 0;
        proof {
            reveal(Seq::filter);
            assert(facts_of(rows@) =~= facts.take(0).filter(kept));
        }
        while i < self.index.len()
            invariant
                i <= self.index@.len(),
                facts == facts_of(self.index@),
                predicate@ == lo@.take(4),
                kept == (|f: Fact| plan::in_range(f.row, lo@, plan::bound_bytes(hi))),
                facts_of(rows@) == facts.take(i as int).filter(kept),
            decreases self.index@.len() - i,
        {
            let row: &[u8] = as_bytes(&self.index[i].0);
            let below_end: bool = match hi {
                Some(end) => less(row, end),
                None => true,
            };
            let keep: bool = !less(row, lo) && below_end && starts_with(row, predicate);
            proof {
                reveal(Seq::filter);
                assert(facts.take(i + 1).drop_last() =~= facts.take(i as int));
                assert(facts.take(i + 1).last() == facts[i as int]);
                assert(facts[i as int].row == row@);
                bytes::lemma_lex_total(lo@, row@);
                if bytes::lex_lt(row@, lo@) {
                    bytes::lemma_lex_asymmetric(row@, lo@);
                }
            }
            if keep {
                let ghost before = facts_of(rows@);
                rows.push((blob_clone(&self.index[i].0), self.index[i].1));
                proof {
                    assert(facts_of(rows@) =~= before.push(facts[i as int]));
                }
            }
            i += 1;
        }
        proof {
            assert(facts.take(i as int) =~= facts);
        }
        let scan = MemScan { rows, at: 0 };
        proof {
            assert(scan.remaining() =~= facts_of(scan.rows@));
        }
        Ok(scan)
    }

    fn point(&self, id: FactId) -> (found: Result<Option<Entity>, ApertureError>) {
        match self.by_id.get(&id.raw()) {
            Some(entity) => Ok(
                Some(Entity { key: blob_clone(&entity.0), value: blob_clone(&entity.1) }),
            ),
            None => Ok(None),
        }
    }
}

} // verus!
