//! The plan: what a query compiles to, the ids of the facts it names, and the store
//! it runs against.
use byteview::ByteView;

use vstd::prelude::*;
use vstd::string::StringExecFns;

use crate::blob;
use crate::boxed;
use crate::boxed::{seal, seal_copy};
use crate::bytes;
use crate::error::{ApertureError, FactIdError, StoreError};
use crate::iter::Address;
use crate::machine;
use crate::schema::{PredicateId, PredicateTy, Symbol};
use crate::text;
use crate::text::push_decimal;
use crate::tuple::{Datum, Value};

verus! {

// ---- fact ids ---------------------------------------------------------------

/// Bits of a [`FactId`] holding the predicate tag: the high three bytes.
pub const FACT_ID_PREDICATE_BITS: u32 = 24;

/// Bits of a [`FactId`] holding the per-predicate sequence: the low five bytes.
pub const FACT_ID_SEQUENCE_BITS: u32 = 40;

/// Largest predicate id representable in a [`FactId`] tag.
pub const MAX_TAGGABLE_PREDICATE: u32 = 0xff_ffff;

/// Largest per-predicate sequence.
pub const MAX_FACT_SEQUENCE: u64 = 0xff_ffff_ffff;

/// A fact's row id: the owning predicate in the high [`FACT_ID_PREDICATE_BITS`] bits,
/// a per-predicate sequence in the low [`FACT_ID_SEQUENCE_BITS`].
///
/// Sequence 0 is reserved, so no id that [`FactId::new`] composes is `0` and zeroed
/// bytes are detectably not a fact.
#[derive(Debug, Clone, Copy, PartialEq, Eq, PartialOrd, Ord, Structural)]
pub struct FactId(u64);

/// The bits of an id are those it is made of.
pub proof fn lemma_bits(raw: u64)
    ensures
        FactId::of_bits(raw).bits() == raw,
{
}

/// An id is the one its bits make.
pub proof fn lemma_of_bits(id: FactId)
    ensures
        FactId::of_bits(id.bits()) == id,
{
}

impl FactId {
    /// The raw eight bytes, as a number.
    pub closed spec fn bits(self) -> u64 {
        self.0
    }

    /// The id whose raw bytes are `raw`.
    pub closed spec fn of_bits(raw: u64) -> FactId {
        FactId(raw)
    }

    /// The tag.
    pub open spec fn predicate_of(self) -> nat {
        (self.bits() as nat) / 0x100_0000_0000
    }

    /// The sequence.
    pub open spec fn sequence_of(self) -> nat {
        (self.bits() as nat) % 0x100_0000_0000
    }

    /// The raw eight bytes, for storing or comparing.
    pub fn raw(self) -> (raw: u64)
        ensures
            raw == self.bits(),
            self == FactId::of_bits(raw),
    {
        self.0
    }

    /// Wrap an id that is already known to be valid: decoded from a stored row, or
    /// handed back by a store that got it from [`FactId::new`].
    pub fn from_raw(raw: u64) -> (id: Self)
        ensures
            id == FactId::of_bits(raw),
            id.bits() == raw,
    {
        Self(raw)
    }

    /// Compose an id from its predicate and sequence.
    pub fn new(predicate: PredicateId, sequence: u64) -> (id: Result<Self, StoreError>)
        ensures
            if predicate.0 > MAX_TAGGABLE_PREDICATE {
                id == Err::<FactId, StoreError>(
                    StoreError::Id(
                        FactIdError::PredicateIdTooWide {
                            predicate: predicate.0,
                            max: MAX_TAGGABLE_PREDICATE,
                        },
                    ),
                )
            } else if sequence == 0 || sequence > MAX_FACT_SEQUENCE {
                id == Err::<FactId, StoreError>(
                    StoreError::Id(
                        FactIdError::FactIdSequence { sequence, max: MAX_FACT_SEQUENCE },
                    ),
                )
            } else {
                id == Ok::<FactId, StoreError>(
                    FactId::of_bits(
                        (predicate.0 * 0x100_0000_0000 + sequence) as u64,
                    ),
                )
            },
    {
        if predicate.0 > MAX_TAGGABLE_PREDICATE {
            return Err(
                StoreError::Id(
                    FactIdError::PredicateIdTooWide {
                        predicate: predicate.0,
                        max: MAX_TAGGABLE_PREDICATE,
                    },
                ),
            );
        }
        if sequence == 0 || sequence > MAX_FACT_SEQUENCE {
            return Err(
                StoreError::Id(FactIdError::FactIdSequence { sequence, max: MAX_FACT_SEQUENCE }),
            );
        }
        let tag: u64 = predicate.0 as u64;
        assert((tag << 40u32) | sequence == (tag * 0x100_0000_0000 + sequence) as u64)
            by (bit_vector)
            requires
                tag <= 0xff_ffff,
                sequence <= 0xff_ffff_ffff,
        ;
        Ok(Self((tag << FACT_ID_SEQUENCE_BITS) | sequence))
    }

    /// The predicate that owns this fact.
    pub fn predicate(self) -> (predicate: PredicateId)
        ensures
            predicate.0 == self.predicate_of(),
    {
        let raw = self.0;
        assert(raw >> 40u32 == raw / 0x100_0000_0000) by (bit_vector);
        assert(raw >> 40u32 <= 0xff_ffff) by (bit_vector);
        PredicateId((self.0 >> FACT_ID_SEQUENCE_BITS) as u32)
    }

    /// This fact's sequence within its predicate.
    pub fn sequence(self) -> (sequence: u64)
        ensures
            sequence == self.sequence_of(),
    {
        let raw = self.0;
        assert(raw & 0xff_ffff_ffff == raw % 0x100_0000_0000) by (bit_vector);
        self.0 & MAX_FACT_SEQUENCE
    }
}

/// An id is its two parts: what [`FactId::new`] composes reads back as the predicate
/// and the sequence it was given, and is never zero.
pub proof fn law_fact_id_round_trip(predicate: PredicateId, sequence: u64)
    requires
        predicate.0 <= MAX_TAGGABLE_PREDICATE,
        0 < sequence <= MAX_FACT_SEQUENCE,
    ensures
        ({
            let id = FactId::of_bits((predicate.0 * 0x100_0000_0000 + sequence) as u64);
            &&& id.predicate_of() == predicate.0
            &&& id.sequence_of() == sequence
            &&& id.bits() != 0
        }),
{
    let tag = predicate.0 as u64;
    assert((tag * 0x100_0000_0000 + sequence) <= u64::MAX);
}

/// Two ids composed from different parts differ: the tag partitions the id space, so
/// no two predicates share an id however their sequences are allocated.
pub proof fn law_fact_id_injective(p: PredicateId, s: u64, q: PredicateId, t: u64)
    requires
        p.0 <= MAX_TAGGABLE_PREDICATE,
        q.0 <= MAX_TAGGABLE_PREDICATE,
        0 < s <= MAX_FACT_SEQUENCE,
        0 < t <= MAX_FACT_SEQUENCE,
        FactId::of_bits((p.0 * 0x100_0000_0000 + s) as u64) == FactId::of_bits(
            (q.0 * 0x100_0000_0000 + t) as u64,
        ),
    ensures
        p == q,
        s == t,
{
    law_fact_id_round_trip(p, s);
    law_fact_id_round_trip(q, t);
}

/// Every id is the one its two parts give.
pub proof fn law_fact_id_parts(id: FactId)
    ensures
        id == FactId::of_bits(
            (id.predicate_of() * 0x100_0000_0000 + id.sequence_of()) as u64,
        ),
        id.predicate_of() <= MAX_TAGGABLE_PREDICATE,
        id.sequence_of() <= MAX_FACT_SEQUENCE,
{
}

// ---- where a field is -------------------------------------------------------

/// Where a field is, as a path says it: a top-level field, and the steps inside it.
#[verifier::ext_equal]
pub struct Route {
    pub first: usize,
    pub steps: Seq<usize>,
}

impl Route {
    /// The way through `field`, then through each of `nested`.
    pub open spec fn of(field: usize, nested: Seq<usize>) -> Route {
        Route { first: field, steps: nested }
    }

    /// The leading field.
    pub open spec fn top(self) -> usize {
        self.first
    }

    /// The steps inside it.
    pub open spec fn inner(self) -> Seq<usize> {
        self.steps
    }
}

/// Where a field lives inside a stored key: a **top-level field**, then one step per
/// record it is nested inside.
///
/// The leading field is a separate component rather than the first element of one
/// slice, so a path naming no field at all cannot be spelled.
#[derive(Debug)]
pub struct FieldPath {
    field: usize,
    nested: Box<[usize]>,
}

impl Clone for FieldPath {
    fn clone(&self) -> (path: Self)
        ensures
            path == *self,
    {
        proof {
            boxed::lemma_boxed(self.nested);
        }
        FieldPath { field: self.field, nested: seal_copy(&self.nested) }
    }
}

impl View for FieldPath {
    type V = Route;

    open spec fn view(&self) -> Route {
        Route::of(self.top(), self.inner())
    }
}

impl FieldPath {
    /// The path through `field`, then through each of `nested`.
    pub closed spec fn of(field: usize, nested: Seq<usize>) -> FieldPath {
        FieldPath { field, nested: boxed::boxed(nested) }
    }

    /// The leading field.
    pub closed spec fn top(self) -> usize {
        self.field
    }

    /// The steps inside it.
    pub closed spec fn inner(self) -> Seq<usize> {
        self.nested@
    }

    /// Two paths with the same leading field and the same steps are equal.
    pub proof fn lemma_ext(self, other: FieldPath)
        requires
            self.top() == other.top(),
            self.inner() == other.inner(),
        ensures
            self == other,
    {
        boxed::lemma_boxed_ext(self.nested, other.nested);
    }

    /// Whether a path holds the steps it is made of.
    pub open spec fn sealed(field: usize, nested: Seq<usize>) -> bool {
        FieldPath::of(field, nested).inner() == nested
    }

    /// A path begins at the field it is made of, and one that holds its steps goes the way
    /// it is made of.
    pub proof fn lemma_of(field: usize, nested: Seq<usize>)
        ensures
            FieldPath::of(field, nested).top() == field,
            FieldPath::sealed(field, nested) ==> FieldPath::of(field, nested)@ == Route::of(
                field,
                nested,
            ),
    {
    }

    /// A path is the one its way makes, which holds its steps.
    pub proof fn lemma_again(self)
        ensures
            FieldPath::of(self.top(), self.inner()) == self,
            FieldPath::sealed(self.top(), self.inner()),
    {
        boxed::lemma_boxed(self.nested);
    }

    /// A top-level field of the key.
    pub fn field(field: usize) -> (path: Self)
        ensures
            path == FieldPath::of(field, Seq::empty()),
            path.top() == field,
            path.inner() == Seq::<usize>::empty(),
    {
        let none: Vec<usize> = Vec::new();
        Self { field, nested: seal(none) }
    }

    /// A field of the record at top-level field `field`, `nested` steps down.
    pub fn nested(field: usize, nested: Vec<usize>) -> (path: Self)
        ensures
            path == FieldPath::of(field, nested@),
            path.top() == field,
            path.inner() == nested@,
    {
        Self { field, nested: seal(nested) }
    }

    /// This path, and one step further in: a field of a record field.
    pub fn then(&self, step: usize) -> (path: Self)
        ensures
            path == FieldPath::of(self.top(), self.inner().push(step)),
            path.top() == self.top(),
            path.inner() == self.inner().push(step),
    {
        self.extended(step)
    }

    /// The path with one more step at its end.
    pub(crate) fn extended(&self, step: usize) -> (path: Self)
        ensures
            path == FieldPath::of(self.top(), self.inner().push(step)),
            path.top() == self.top(),
            path.inner() == self.inner().push(step),
    {
        let mut nested: Vec<usize> = vstd::slice::slice_to_vec(&self.nested);
        nested.push(step);
        Self::nested(self.field, nested)
    }

    /// The top-level key field this path starts at.
    pub fn field_idx(&self) -> (field: usize)
        ensures
            field == self.top(),
    {
        self.field
    }

    /// The steps inside that field.
    pub fn steps(&self) -> (steps: &[usize])
        ensures
            steps@ == self.inner(),
    {
        &self.nested
    }

    /// The path as text: `1`, or `0.1` for a nested step.
    pub open spec fn shown(self) -> Seq<char> {
        text::decimal(self.top() as nat) + steps_shown(self.inner(), self.inner().len())
    }

    /// The path as text.
    pub fn text(&self) -> (shown: String)
        ensures
            shown@ == self.shown(),
    {
        let mut shown: String = String::new();
        push_decimal(&mut shown, self.field as u64);
        let mut k: usize = 0;
        proof {
            assert(Seq::<char>::empty() + text::decimal(self.top() as nat) + steps_shown(
                self.inner(),
                0,
            ) =~= text::decimal(self.top() as nat) + steps_shown(self.inner(), 0));
        }
        while k < self.nested.len()
            invariant
                k <= self.nested@.len(),
                shown@ == text::decimal(self.top() as nat) + steps_shown(self.inner(), k as nat),
            decreases self.nested@.len() - k,
        {
            let ghost before = shown@;
            shown.append(".");
            push_decimal(&mut shown, self.nested[k] as u64);
            proof {
                assert(before + "."@ + text::decimal(self.inner()[k as int] as nat)
                    =~= text::decimal(self.top() as nat) + steps_shown(
                    self.inner(),
                    (k + 1) as nat,
                ));
            }
            k += 1;
        }
        shown
    }

    /// Whether this names a top-level field directly.
    pub fn is_flat(&self) -> (flat: bool)
        ensures
            flat == (self.inner().len() == 0),
    {
        self.nested.len() == 0
    }

    /// Whether two paths name the same field.
    pub fn same(&self, other: &FieldPath) -> (equal: bool)
        ensures
            equal == (*self == *other),
    {
        if self.field != other.field || self.nested.len() != other.nested.len() {
            return false;
        }
        let mut i: usize = 0;
        while i < self.nested.len()
            invariant
                self.nested@.len() == other.nested@.len(),
                self.field == other.field,
                i <= self.nested@.len(),
                forall|j: int| 0 <= j < i ==> self.nested@[j] == other.nested@[j],
            decreases self.nested@.len() - i,
        {
            if self.nested[i] != other.nested[i] {
                return false;
            }
            i += 1;
        }
        proof {
            assert(self.nested@ =~= other.nested@);
            self.lemma_ext(*other);
        }
        true
    }
}

/// The first `k` steps of a path as text, each behind a dot.
pub open spec fn steps_shown(steps: Seq<usize>, k: nat) -> Seq<char>
    decreases k,
{
    if k == 0 {
        Seq::empty()
    } else {
        steps_shown(steps, (k - 1) as nat) + "."@ + text::decimal(steps[k - 1] as nat)
    }
}

// ---- accesses and residuals -------------------------------------------------

/// The prefix a scan is narrowed to: bytes known when the plan is built, or parts
/// some of which a register fills when the level is opened.
#[derive(Debug)]
pub enum SeekKey {
    Prefix(Box<[u8]>),
    Composite(Box<[SeekKeyPart]>),
}

/// One part of a [`SeekKey::Composite`].
#[derive(Debug)]
pub enum SeekKeyPart {
    Bytes(Box<[u8]>),
    RegisterField { address: Address, path: FieldPath },
    /// A **fact-typed** field, filled from the register's identity: the encoding of
    /// the row's [`FactId`], not of its key.
    RegisterFactId(Address),
}

impl Clone for SeekKeyPart {
    fn clone(&self) -> (part: Self)
        ensures
            part == *self,
    {
        match self {
            SeekKeyPart::Bytes(bytes) => {
                proof {
                    boxed::lemma_boxed(*bytes);
                }
                SeekKeyPart::Bytes(seal_copy(bytes))
            },
            SeekKeyPart::RegisterField { address, path } => SeekKeyPart::RegisterField {
                address: *address,
                path: path.clone(),
            },
            SeekKeyPart::RegisterFactId(address) => SeekKeyPart::RegisterFactId(*address),
        }
    }
}

/// Which predicate a level scans, and where its scan starts.
#[derive(Debug)]
pub struct Access {
    pub predicate_id: PredicateId,
    pub seek_key: SeekKey,
}

/// What a key field of a scanned row has to be.
#[derive(Debug)]
pub enum ResidualOp {
    EqConst(Box<[u8]>),
    Prefix(Box<[u8]>),
    EqRegisterField { address: Address, path: FieldPath },
    /// The [`SeekKeyPart::RegisterFactId`] compare, once the seek prefix has closed.
    EqRegisterFactId(Address),
}

/// A filter on the rows of a level: the field, and what it has to be.
#[derive(Debug)]
pub struct Residual {
    pub path: FieldPath,
    pub op: ResidualOp,
}

impl Clone for ResidualOp {
    fn clone(&self) -> (op: Self)
        ensures
            op == *self,
    {
        match self {
            ResidualOp::EqConst(bytes) => {
                proof {
                    boxed::lemma_boxed(*bytes);
                }
                ResidualOp::EqConst(seal_copy(bytes))
            },
            ResidualOp::Prefix(bytes) => {
                proof {
                    boxed::lemma_boxed(*bytes);
                }
                ResidualOp::Prefix(seal_copy(bytes))
            },
            ResidualOp::EqRegisterField { address, path } => ResidualOp::EqRegisterField {
                address: *address,
                path: path.clone(),
            },
            ResidualOp::EqRegisterFactId(address) => ResidualOp::EqRegisterFactId(*address),
        }
    }
}

impl Clone for Residual {
    fn clone(&self) -> (residual: Self)
        ensures
            residual == *self,
    {
        Residual { path: self.path.clone(), op: self.op.clone() }
    }
}

/// One loop level of a [`Plan`]: what it scans, the registers a row fills, and the
/// filters a row has to pass.
#[derive(Debug)]
pub struct Generator {
    pub access: Access,
    pub binds: Box<[Address]>,
    pub residuals: Box<[Residual]>,
}

/// What a row of the answer is made of.
#[derive(Debug)]
pub enum Project {
    Lit(Value),
    RegisterField { address: Address, path: FieldPath, ty: PredicateTy },
    FactRef(Address),
    Value { address: Address, ty: PredicateTy },
    /// A value a derived bind computed.
    Computed(Address),
    Record(Vec<(Symbol, Project)>),
}

/// What a [`Project`] says.
pub enum Projection {
    Lit(Datum),
    RegisterField { address: Address, path: FieldPath, ty: PredicateTy },
    FactRef(Address),
    Value { address: Address, ty: PredicateTy },
    Computed(Address),
    Record(Seq<(Symbol, Projection)>),
}

impl Project {
    /// What the projection says.
    pub open spec fn shape(self) -> Projection
        decreases self,
    {
        match self {
            Project::Lit(value) => Projection::Lit(value.datum()),
            Project::RegisterField { address, path, ty } => Projection::RegisterField {
                address,
                path,
                ty,
            },
            Project::FactRef(address) => Projection::FactRef(address),
            Project::Value { address, ty } => Projection::Value { address, ty },
            Project::Computed(address) => Projection::Computed(address),
            Project::Record(fields) => Projection::Record(
                Seq::new(
                    fields@.len(),
                    |i: int|
                        if 0 <= i < fields@.len() {
                            (fields@[i].0, fields@[i].1.shape())
                        } else {
                            arbitrary()
                        },
                ),
            ),
        }
    }
}

/// The compiled query the executor runs.
#[derive(Debug)]
pub struct Plan {
    pub nvars: usize,
    pub body: Box<[Generator]>,
    pub head: Project,
}

// ---- stored facts -----------------------------------------------------------

/// A fact as the key index holds it: its whole row, which begins with the predicate's
/// four bytes, and its id.
#[verifier::ext_equal]
pub struct Fact {
    pub row: Seq<u8>,
    pub id: FactId,
}

impl Fact {
    /// The key fields, back to back: the row without the predicate's bytes.
    pub open spec fn key(self) -> Seq<u8> {
        self.row.skip(4)
    }
}

/// The fact a row of the key index is.
pub open spec fn fact_of(row: ByteView, id: FactId) -> Fact {
    Fact { row: blob::blob_bytes(row), id }
}

/// Rows strictly ascending, so that a row determines its fact.
pub open spec fn sorted(facts: Seq<Fact>) -> bool {
    forall|i: int, j: int|
        #![trigger facts[i], facts[j]]
        0 <= i < j < facts.len() ==> bytes::lex_lt(facts[i].row, facts[j].row)
}

/// Whether a row is in `lo..hi`, bounded to the predicate `lo` names.
pub open spec fn in_range(row: Seq<u8>, lo: Seq<u8>, hi: Option<Seq<u8>>) -> bool {
    &&& bytes::lex_le(lo, row)
    &&& hi matches Some(end) ==> bytes::lex_lt(row, end)
    &&& bytes::begins_with(row, lo.take(4))
}

/// The facts whose rows are in a range, in order.
pub open spec fn between(facts: Seq<Fact>, lo: Seq<u8>, hi: Option<Seq<u8>>) -> Seq<Fact> {
    facts.filter(|f: Fact| in_range(f.row, lo, hi))
}

/// A fact's two sides.
#[derive(Debug)]
pub struct Entity {
    pub key: ByteView,
    pub value: ByteView,
}

/// A scan under way: the rows it has yet to yield.
pub trait RowScan {
    /// The facts still to come, in order.
    spec fn remaining(&self) -> Seq<Fact>;

    /// Whether a row may fail to be read.
    spec fn may_fail(&self) -> bool;

    /// The next row, and the id of the fact it is. `None` once there is none.
    fn next_row(&mut self) -> (row: Option<Result<(ByteView, FactId), ApertureError>>)
        ensures
            final(self).may_fail() == old(self).may_fail(),
            match row {
                Some(Ok((bytes, id))) => {
                    &&& old(self).remaining().len() > 0
                    &&& fact_of(bytes, id) == old(self).remaining()[0]
                    &&& final(self).remaining() == old(self).remaining().skip(1)
                },
                Some(Err(_)) => old(self).may_fail(),
                None => old(self).remaining().len() == 0 && final(self).remaining() == old(
                    self,
                ).remaining(),
            },
    ;
}

/// What a bound handed to a scan is, as bytes.
pub open spec fn bound_bytes(bound: Option<&[u8]>) -> Option<Seq<u8>> {
    match bound {
        Some(bytes) => Some(bytes@),
        None => None,
    }
}

/// A store of facts: an index from key to id, and the two sides of the fact behind
/// each id.
pub trait FactStore {
    type Scan: RowScan;

    /// The key index, in order.
    spec fn facts(&self) -> Seq<Fact>;

    /// The key and the value bytes behind an id.
    spec fn entity(&self, id: FactId) -> Option<(Seq<u8>, Seq<u8>)>;

    /// Whether reading may fail.
    spec fn may_fail(&self) -> bool;

    /// A row is the key of one fact, and rows are scanned in order.
    proof fn facts_are_sorted(&self)
        ensures
            sorted(self.facts()),
    ;

    /// Open a scan of `lo..hi`, bounded to the predicate named by `lo`'s first four
    /// bytes. A `lo` too short to name a predicate is a fault in the call.
    fn scan(&self, lo: &[u8], hi: Option<&[u8]>) -> (opened: Result<Self::Scan, ApertureError>)
        ensures
            match opened {
                Ok(scan) => {
                    &&& lo@.len() >= 4
                    &&& scan.remaining() == between(self.facts(), lo@, bound_bytes(hi))
                    &&& scan.may_fail() ==> self.may_fail()
                },
                Err(e) => self.may_fail() || (lo@.len() < 4 && e == ApertureError::Store(
                    StoreError::ShortScanBound { len: lo@.len() as usize, expected: 4 },
                )),
            },
    ;

    /// The fact behind an id.
    fn point(&self, id: FactId) -> (found: Result<Option<Entity>, ApertureError>)
        ensures
            match found {
                Ok(Some(entity)) => self.entity(id) == Some(
                    (blob::blob_bytes(entity.key), blob::blob_bytes(entity.value)),
                ),
                Ok(None) => self.entity(id) is None,
                Err(_) => self.may_fail(),
            },
    ;
}

/// A scan stays within the predicate its lower bound names, yields facts of the store,
/// and yields them in order.
pub proof fn law_a_scan_stays_in_its_predicate(
    facts: Seq<Fact>,
    lo: Seq<u8>,
    hi: Option<Seq<u8>>,
)
    requires
        sorted(facts),
    ensures
        sorted(between(facts, lo, hi)),
        forall|i: int|
            0 <= i < between(facts, lo, hi).len() ==> bytes::begins_with(
                (#[trigger] between(facts, lo, hi)[i]).row,
                lo.take(4),
            ) && facts.contains(between(facts, lo, hi)[i]),
{
    machine::lemma_filter_sorted(facts, |f: Fact| in_range(f.row, lo, hi));
}

proof fn lemma_kept_iff(facts: Seq<Fact>, keep: spec_fn(Fact) -> bool, fact: Fact)
    ensures
        facts.filter(keep).contains(fact) == (facts.contains(fact) && keep(fact)),
    decreases facts.len(),
{
    reveal(Seq::filter);
    if facts.len() > 0 {
        let (less, last) = (facts.drop_last(), facts.last());
        lemma_kept_iff(less, keep, fact);
        let (some, all) = (less.filter(keep), facts.filter(keep));
        if less.contains(fact) {
            let i = choose|i: int| 0 <= i < less.len() && less[i] == fact;
            assert(facts[i] == fact);
        }
        if facts.contains(fact) && fact != last {
            let i = choose|i: int| 0 <= i < facts.len() && facts[i] == fact;
            assert(less[i] == fact);
        }
        if some.contains(fact) {
            let i = choose|i: int| 0 <= i < some.len() && some[i] == fact;
            assert(all[i] == fact);
        }
        if all.contains(fact) && !some.contains(fact) {
            let i = choose|i: int| 0 <= i < all.len() && all[i] == fact;
            assert(i >= some.len() || some[i] == fact);
        }
        if keep(last) {
            assert(all[some.len() as int] == last);
        }
        assert(facts[facts.len() - 1] == last);
    }
}

/// A scan yields every fact of its range and no other: those that come no sooner than its lower
/// bound, sooner than its upper one, and are of the predicate the lower bound names.
pub proof fn law_a_scan_yields_its_range(
    facts: Seq<Fact>,
    lo: Seq<u8>,
    hi: Option<Seq<u8>>,
    fact: Fact,
)
    ensures
        between(facts, lo, hi).contains(fact) <==> {
            &&& facts.contains(fact)
            &&& !bytes::lex_lt(fact.row, lo)
            &&& hi matches Some(end) ==> bytes::lex_lt(fact.row, end)
            &&& bytes::begins_with(fact.row, lo.take(4))
        },
{
    lemma_kept_iff(facts, |f: Fact| in_range(f.row, lo, hi), fact);
    bytes::lemma_lex_total(lo, fact.row);
    if bytes::lex_lt(lo, fact.row) {
        bytes::lemma_lex_asymmetric(lo, fact.row);
    }
    bytes::lemma_lex_irreflexive(lo);
}

/// A scan goes on where another ends: two that meet at a bound yield, one behind the other,
/// what one over both yields.
pub proof fn law_a_scan_goes_on_where_another_ends(
    facts: Seq<Fact>,
    lo: Seq<u8>,
    mid: Seq<u8>,
    hi: Option<Seq<u8>>,
)
    requires
        sorted(facts),
        mid.take(4) == lo.take(4),
        !bytes::lex_lt(mid, lo),
        hi matches Some(end) ==> !bytes::lex_lt(end, mid),
    ensures
        between(facts, lo, Some(mid)) + between(facts, mid, hi) == between(facts, lo, hi),
    decreases facts.len(),
{
    reveal(Seq::filter);
    let (first, second, whole) = (
        between(facts, lo, Some(mid)),
        between(facts, mid, hi),
        between(facts, lo, hi),
    );
    if facts.len() > 0 {
        let (less, last) = (facts.drop_last(), facts.last());
        assert forall|i: int, j: int| 0 <= i < j < less.len() implies bytes::lex_lt(
            (#[trigger] less[i]).row,
            (#[trigger] less[j]).row,
        ) by {
            assert(less[i] == facts[i] && less[j] == facts[j]);
        }
        law_a_scan_goes_on_where_another_ends(less, lo, mid, hi);
        lemma_bounds(lo, mid, hi, last.row);
        let (a, b) = (between(less, lo, Some(mid)), between(less, mid, hi));
        if in_range(last.row, lo, Some(mid)) {
            assert(b.len() == 0) by {
                if b.len() > 0 {
                    lemma_kept_iff(less, |f: Fact| in_range(f.row, mid, hi), b[0]);
                    assert(b.contains(b[0]));
                    let i = choose|i: int| 0 <= i < less.len() && less[i] == b[0];
                    assert(bytes::lex_lt(facts[i].row, facts[facts.len() - 1].row));
                    lemma_bounds(lo, mid, hi, b[0].row);
                    bytes::lemma_lex_transitive(b[0].row, last.row, mid);
                }
            }
            assert(a.push(last) + b =~= (a + b).push(last));
        } else if in_range(last.row, mid, hi) {
            assert(a + b.push(last) =~= (a + b).push(last));
        }
    } else {
        assert(first + second =~= whole);
    }
}

/// A row is in one of two ranges that meet, if and only if it is in both together.
proof fn lemma_bounds(lo: Seq<u8>, mid: Seq<u8>, hi: Option<Seq<u8>>, row: Seq<u8>)
    requires
        mid.take(4) == lo.take(4),
        !bytes::lex_lt(mid, lo),
        hi matches Some(end) ==> !bytes::lex_lt(end, mid),
    ensures
        in_range(row, lo, hi) == (in_range(row, lo, Some(mid)) || in_range(row, mid, hi)),
        !(in_range(row, lo, Some(mid)) && in_range(row, mid, hi)),
        in_range(row, mid, hi) ==> !bytes::lex_lt(row, mid),
{
    bytes::lemma_lex_total(row, mid);
    bytes::lemma_lex_total(lo, mid);
    bytes::lemma_lex_irreflexive(row);
    if bytes::lex_lt(row, mid) {
        bytes::lemma_lex_asymmetric(row, mid);
        if let Some(end) = hi {
            bytes::lemma_lex_total(mid, end);
            if bytes::lex_lt(mid, end) {
                bytes::lemma_lex_transitive(row, mid, end);
            }
        }
    }
    if bytes::lex_lt(mid, row) {
        bytes::lemma_lex_asymmetric(mid, row);
        if bytes::lex_lt(lo, mid) {
            bytes::lemma_lex_transitive(lo, mid, row);
        }
    }
}

} // verus!
