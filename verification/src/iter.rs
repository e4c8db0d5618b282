//! The executor: nested loops over a store's key index, one level per generator, that
//! can be stopped after any row and taken up again from a cursor.
use std::ops::Range;

use byteview::ByteView;
use tinyvec::ArrayVec;
use tokio_util::sync::CancellationToken;

use vstd::prelude::*;

use crate::blob;
use crate::blob::{as_bytes, blob_clone, blob_detached, blob_from};
use crate::bytes::{append_bytes, same_bytes, starts_with, strinc, sub_bytes};
use crate::error::{ApertureError, StoreCodecError, StoreError};
use crate::machine;
use crate::machine::{Place, Run};
use crate::plan;
use crate::plan::{
    Fact, FactId, FactStore, FieldPath, Generator, Plan, Project, Projection, Residual,
    ResidualOp, RowScan, SeekKey, SeekKeyPart,
};
use crate::schema::{LocalInterner, Names, PredicateTy, Symbol, PREDICATE_ID_SIZE};
use crate::text;
use crate::text::push_decimal;
use crate::tuple;
use crate::tuple::{decode_typed, nested_range, put_big_endian, put_fact_id, skip, Datum, Value};

verus! {

/// A register: the position of the loop level that fills it.
#[derive(Debug, Clone, Copy, PartialEq, Eq, Structural)]
pub struct Address(pub usize);

impl Address {
    pub fn new(i: usize) -> (address: Self)
        ensures
            address == Address(i),
    {
        Self(i)
    }

    /// The register as text: `r0`.
    pub open spec fn shown(self) -> Seq<char> {
        "r"@ + text::decimal(self.0 as nat)
    }

    /// The register as text.
    pub fn text(self) -> (shown: String)
        ensures
            shown@ == self.shown(),
    {
        let mut shown: String = "r".to_owned();
        push_decimal(&mut shown, self.0 as u64);
        shown
    }

    /// The level that fills this register.
    pub fn index(self) -> (i: usize)
        ensures
            i == self.0,
    {
        self.0
    }
}

// ---- registers --------------------------------------------------------------

/// A row a level is on: its whole bytes, and the fact they are the key of.
pub struct Register {
    pub fact_id: FactId,
    pub bytes: ByteView,
}

impl Register {
    /// The fact the row is.
    pub open spec fn fact(self) -> Fact {
        plan::fact_of(self.bytes, self.fact_id)
    }

    /// A row holds its predicate's bytes at least.
    pub open spec fn wf(self) -> bool {
        self.fact().row.len() >= 4
    }

    /// The key fields: the row without its predicate.
    pub fn key(&self) -> (key: ByteView)
        requires
            self.wf(),
        ensures
            blob::blob_bytes(key) == self.fact().key(),
    {
        blob_from(&self.bytes, PREDICATE_ID_SIZE)
    }

    /// The same row, in storage of its own.
    pub fn to_detached(&self) -> (copy: Register)
        ensures
            copy.fact() == self.fact(),
    {
        Register { fact_id: self.fact_id, bytes: blob_detached(&self.bytes) }
    }

    /// Another handle on the same row.
    fn share(&self) -> (copy: Register)
        ensures
            copy.fact() == self.fact(),
    {
        Register { fact_id: self.fact_id, bytes: blob_clone(&self.bytes) }
    }
}

/// What a register holds.
pub open spec fn content(register: Option<Register>) -> Option<Fact> {
    match register {
        Some(held) => Some(held.fact()),
        None => None,
    }
}

/// The registers of a running plan.
pub struct MachineState {
    pub registers: Vec<Option<Register>>,
}

impl View for MachineState {
    type V = Seq<Option<Fact>>;

    open spec fn view(&self) -> Seq<Option<Fact>> {
        Seq::new(self.registers@.len(), |i: int| content(self.registers@[i]))
    }
}

impl MachineState {
    /// Every row held is a whole row.
    pub open spec fn wf(self) -> bool {
        forall|i: int|
            0 <= i < self.registers@.len() ==> ((#[trigger] self.registers@[i]) matches Some(held)
                ==> held.wf())
    }

    pub fn new(nvars: usize) -> (state: Self)
        ensures
            state@ == machine::unbound(nvars as nat),
            state.wf(),
    {
        let mut registers: Vec<Option<Register>> = Vec::new();
        let mut i: usize = 0;
        while i < nvars
            invariant
                i <= nvars,
                registers@.len() == i,
                forall|j: int| 0 <= j < i ==> (#[trigger] registers@[j]) is None,
            decreases nvars - i,
        {
            registers.push(None);
            i += 1;
        }
        let state = Self { registers };
        proof {
            assert(state@ =~= machine::unbound(nvars as nat));
        }
        state
    }

    /// The row a register holds.
    pub fn get(&self, address: Address) -> (held: Result<&Register, ApertureError>)
        ensures
            match (held, machine::held(self@, address)) {
                (Ok(register), Ok(fact)) => register.fact() == fact && (self.wf()
                    ==> register.wf()),
                (Err(e), Err(expected)) => e == expected,
                _ => false,
            },
    {
        if address.0 >= self.registers.len() {
            return Err(ApertureError::AddressOutOfBounds(address));
        }
        match &self.registers[address.0] {
            Some(register) => Ok(register),
            None => Err(ApertureError::UseBeforeBind(address)),
        }
    }

    /// The same registers again.
    pub(crate) fn copy(&self) -> (copy: Self)
        requires
            self.wf(),
        ensures
            copy@ == self@,
            copy.wf(),
    {
        let mut registers: Vec<Option<Register>> = Vec::new();
        let mut i: usize = 0;
        while i < self.registers.len()
            invariant
                self.wf(),
                i <= self.registers@.len(),
                registers@.len() == i,
                forall|j: int|
                    0 <= j < i ==> content(#[trigger] registers@[j]) == content(
                        self.registers@[j],
                    ),
            decreases self.registers@.len() - i,
        {
            registers.push(
                match &self.registers[i] {
                    Some(register) => Some(register.share()),
                    None => None,
                },
            );
            i += 1;
        }
        let copy = Self { registers };
        proof {
            assert(copy@ =~= self@);
            assert forall|i: int| 0 <= i < copy.registers@.len() implies ((
            #[trigger] copy.registers@[i]) matches Some(held) ==> held.wf()) by {
                assert(content(copy.registers@[i]) == content(self.registers@[i]));
            }
        }
        copy
    }

    /// Bind a row to each of `binds`.
    pub(crate) fn bind(&mut self, binds: &[Address], row: &Register) -> (done: Result<(), ApertureError>)
        requires
            old(self).wf(),
            row.wf(),
        ensures
            match (done, machine::stray(binds@, old(self)@.len(), 0)) {
                (Ok(_), None) => final(self)@ == machine::bound(old(self)@, binds@, row.fact())
                    && final(self).wf(),
                (Err(e), Some(address)) => e == ApertureError::AddressOutOfBounds(address),
                _ => false,
            },
    {
        let mut k: usize = 0;
        while k < binds.len()
            invariant
                k <= binds@.len(),
                self.wf(),
                row.wf(),
                self@.len() == old(self)@.len(),
                self@ == machine::bound(old(self)@, binds@.take(k as int), row.fact()),
                machine::stray(binds@, old(self)@.len(), 0) == machine::stray(
                    binds@,
                    old(self)@.len(),
                    k as nat,
                ),
            decreases binds@.len() - k,
        {
            let address: Address = binds[k];
            if address.0 >= self.registers.len() {
                return Err(ApertureError::AddressOutOfBounds(address));
            }
            let ghost before = self@;
            self.registers.set(address.0, Some(row.share()));
            proof {
                let taken = binds@.take(k as int);
                let more = binds@.take(k + 1);
                assert(more =~= taken.push(address));
                assert forall|i: int| 0 <= i < self@.len() implies #[trigger] self@[i]
                    == machine::bound(old(self)@, more, row.fact())[i] by {
                    let a = Address(i as usize);
                    if taken.contains(a) {
                        let j = choose|j: int| 0 <= j < taken.len() && taken[j] == a;
                        assert(more[j] == a);
                    }
                    if more.contains(a) {
                        let j = choose|j: int| 0 <= j < more.len() && more[j] == a;
                        if j < k {
                            assert(taken[j] == a);
                        }
                    }
                    if i == address.0 {
                        assert(more[k as int] == a);
                    } else {
                        assert(self@[i] == before[i]);
                    }
                }
                assert(self@ =~= machine::bound(old(self)@, more, row.fact()));
            }
            k += 1;
        }
        proof {
            assert(binds@.take(k as int) =~= binds@);
        }
        Ok(())
    }
}

// ---- field offsets ----------------------------------------------------------

/// How many field ends are remembered per register.
pub const FIELD_OFFSETS_CAPACITY: usize = 16;

/// [`ArrayVec`], a vector of bounded length held in place. Opaque: what one holds is
/// [`offset_items`].
#[verifier::external_type_specification]
#[verifier::external_body]
#[verifier::reject_recursive_types(A)]
pub struct ExArrayVec<A>(tinyvec::ArrayVec<A>);

/// The items of an [`ArrayVec`], in order.
pub uninterp spec fn offset_items(ends: ArrayVec<[usize; FIELD_OFFSETS_CAPACITY]>) -> Seq<usize>;

/// `ArrayVec::new`: an empty one.
#[verifier::external_body]
fn offsets_new() -> (ends: ArrayVec<[usize; FIELD_OFFSETS_CAPACITY]>)
    ensures
        offset_items(ends) == Seq::<usize>::empty(),
{
    ArrayVec::new()
}

/// `ArrayVec::clear`: every item is removed.
#[verifier::external_body]
fn offsets_clear(ends: &mut ArrayVec<[usize; FIELD_OFFSETS_CAPACITY]>)
    ensures
        offset_items(*final(ends)) == Seq::<usize>::empty(),
{
    ends.clear();
}

/// `ArrayVec::len`: how many items there are, never more than the capacity.
#[verifier::external_body]
fn offsets_len(ends: &ArrayVec<[usize; FIELD_OFFSETS_CAPACITY]>) -> (n: usize)
    ensures
        n == offset_items(*ends).len(),
        n <= FIELD_OFFSETS_CAPACITY,
{
    ends.len()
}

/// `ArrayVec`'s indexing: item `i`. It panics past the end.
#[verifier::external_body]
fn offsets_at(ends: &ArrayVec<[usize; FIELD_OFFSETS_CAPACITY]>, i: usize) -> (item: usize)
    requires
        i < offset_items(*ends).len(),
    ensures
        item == offset_items(*ends)[i as int],
{
    ends[i]
}

/// `ArrayVec::push`: one more item at the end. It panics at capacity.
#[verifier::external_body]
fn offsets_push(ends: &mut ArrayVec<[usize; FIELD_OFFSETS_CAPACITY]>, item: usize)
    requires
        offset_items(*old(ends)).len() < FIELD_OFFSETS_CAPACITY,
    ensures
        offset_items(*final(ends)) == offset_items(*old(ends)).push(item),
{
    ends.push(item);
}

/// Where the leading fields of one key end, as far as they have been walked.
pub struct FieldOffsets {
    ends: ArrayVec<[usize; FIELD_OFFSETS_CAPACITY]>,
}

impl FieldOffsets {
    /// The ends remembered.
    pub closed spec fn known(self) -> Seq<usize> {
        offset_items(self.ends)
    }

    /// What is remembered is true of `key`.
    pub open spec fn fits(self, key: Seq<u8>) -> bool {
        forall|i: int|
            0 <= i < self.known().len() ==> tuple::field_start(key, (i + 1) as nat) == Ok::<
                nat,
                StoreCodecError,
            >(#[trigger] self.known()[i] as nat)
    }

    pub fn new() -> (offsets: Self)
        ensures
            offsets.known().len() == 0,
    {
        Self { ends: offsets_new() }
    }

    pub fn clear(&mut self)
        ensures
            final(self).known().len() == 0,
    {
        offsets_clear(&mut self.ends);
    }

    /// Where field `idx` of `key` begins and ends. The ends found on the way are
    /// remembered, as far as there is room.
    pub fn get(&mut self, key: &ByteView, idx: usize) -> (span: Result<
        Range<usize>,
        StoreCodecError,
    >)
        requires
            old(self).fits(blob::blob_bytes(*key)),
        ensures
            final(self).fits(blob::blob_bytes(*key)),
            match (span, tuple::field_span(blob::blob_bytes(*key), idx as nat)) {
                (Ok(range), Ok(expected)) => {
                    &&& (range.start as nat, range.end as nat) == expected
                    &&& range.start < range.end <= blob::blob_bytes(*key).len()
                },
                (Err(e), Err(expected)) => e == expected,
                _ => false,
            },
    {
        let bytes: &[u8] = as_bytes(key);
        let known: usize = offsets_len(&self.ends);
        proof {
            tuple::lemma_field_start(bytes@, idx as nat);
        }
        if idx < known {
            let end: usize = offsets_at(&self.ends, idx);
            let start: usize = if idx == 0 {
                0
            } else {
                offsets_at(&self.ends, idx - 1)
            };
            proof {
                assert(self.known()[idx as int] == end);
                if idx > 0 {
                    assert(self.known()[idx - 1] == start);
                }
            }
            return Ok(start..end);
        }
        let mut i: usize = known;
        let mut start: usize = if known == 0 {
            0
        } else {
            offsets_at(&self.ends, known - 1)
        };
        proof {
            if known > 0 {
                assert(self.known()[known - 1] == start);
            }
            tuple::lemma_field_start(bytes@, known as nat);
        }
        loop
            invariant
                i <= idx,
                bytes@ == blob::blob_bytes(*key),
                start <= bytes@.len(),
                self.fits(bytes@),
                self.known().len() == if i < FIELD_OFFSETS_CAPACITY {
                    i as nat
                } else {
                    FIELD_OFFSETS_CAPACITY as nat
                },
                tuple::field_start(bytes@, i as nat) == Ok::<nat, StoreCodecError>(start as nat),
            decreases idx - i,
        {
            let end: usize = match skip(bytes, start) {
                Ok(end) => end,
                Err(e) => {
                    proof {
                        tuple::lemma_field_start_fails(
                            bytes@,
                            (i + 1) as nat,
                            (idx + 1) as nat,
                        );
                        if i < idx {
                            tuple::lemma_field_start_fails(bytes@, (i + 1) as nat, idx as nat);
                        }
                    }
                    return Err(e);
                },
            };
            if i < FIELD_OFFSETS_CAPACITY {
                let ghost before = self.known();
                offsets_push(&mut self.ends, end);
                proof {
                    assert forall|j: int| 0 <= j < self.known().len() implies tuple::field_start(
                        bytes@,
                        (j + 1) as nat,
                    ) == Ok::<nat, StoreCodecError>(#[trigger] self.known()[j] as nat) by {
                        if j < before.len() {
                            assert(self.known()[j] == before[j]);
                        }
                    }
                }
            }
            if i == idx {
                return Ok(start..end);
            }
            i += 1;
            start = end;
        }
    }
}

/// Where the value a path names in `key` begins and ends. The path's leading field is
/// the fast path, which `offsets` remembers; the steps inside it are walked each time.
fn path_range(offsets: &mut FieldOffsets, key: &ByteView, path: &FieldPath) -> (span: Result<
    Range<usize>,
    ApertureError,
>)
    requires
        old(offsets).fits(blob::blob_bytes(*key)),
    ensures
        final(offsets).fits(blob::blob_bytes(*key)),
        match (span, tuple::path_span(blob::blob_bytes(*key), path@)) {
            (Ok(range), Ok(expected)) => {
                &&& (range.start as nat, range.end as nat) == expected
                &&& range.start < range.end <= blob::blob_bytes(*key).len()
            },
            (Err(e), Err(expected)) => e == expected,
            _ => false,
        },
{
    match offsets.get(key, path.field_idx()) {
        Ok(field) => match nested_range(as_bytes(key), field.start, field.end, path.steps()) {
            Ok((start, end)) => Ok(start..end),
            Err(e) => Err(e),
        },
        Err(e) => Err(ApertureError::Decode(e)),
    }
}

/// The value a path names in `key`, encoded.
pub(crate) fn path_value(offsets: &mut FieldOffsets, key: &ByteView, path: &FieldPath) -> (value: Result<
    Vec<u8>,
    ApertureError,
>)
    requires
        old(offsets).fits(blob::blob_bytes(*key)),
    ensures
        final(offsets).fits(blob::blob_bytes(*key)),
        match (value, tuple::path_bytes(blob::blob_bytes(*key), path@)) {
            (Ok(bytes), Ok(expected)) => bytes@ == expected,
            (Err(e), Err(expected)) => e == expected,
            _ => false,
        },
{
    match path_range(offsets, key, path) {
        Ok(range) => Ok(sub_bytes(as_bytes(key), range.start, range.end)),
        Err(e) => Err(e),
    }
}

// ---- frames -----------------------------------------------------------------

/// How many rows a level reads between two looks at the cancellation token.
pub const CANCELLATION_STRIDE: usize = 4096;

/// [`CancellationToken`], which another task may set at any time. Opaque.
#[verifier::external_type_specification]
#[verifier::external_body]
pub struct ExCancellationToken(tokio_util::sync::CancellationToken);

/// `CancellationToken::is_cancelled`: whether the token has been set. Another task sets
/// it, so nothing is promised of the answer.
#[verifier::external_body]
fn is_cancelled(token: &CancellationToken) -> bool {
    token.is_cancelled()
}

/// What a frame remembers of the registers is true of `env`.
pub open spec fn offsets_fit(offsets: Seq<FieldOffsets>, env: Seq<Option<Fact>>) -> bool {
    &&& offsets.len() == env.len()
    &&& forall|r: int|
        0 <= r < env.len() ==> ((#[trigger] offsets[r]).known().len() == 0 || (
        env[r] matches Some(fact) && offsets[r].fits(fact.key())))
}

/// Offsets are remembered anew only for registers that some filter reads.
pub open spec fn only_read(
    before: Seq<FieldOffsets>,
    after: Seq<FieldOffsets>,
    filters: Seq<Residual>,
) -> bool {
    &&& after.len() == before.len()
    &&& forall|r: int|
        0 <= r < after.len() && (#[trigger] after[r]).known().len() > 0 ==> before[r].known().len()
            > 0 || exists|i: int|
            0 <= i < filters.len() && machine::op_reads(
                (#[trigger] filters[i]).op,
                Address(r as usize),
            )
}

/// What a scan has left, if it is open.
pub open spec fn scan_left<C: RowScan>(scan: Option<C>) -> Option<Seq<Fact>> {
    match scan {
        Some(open) => Some(open.remaining()),
        None => None,
    }
}

/// One level of the loops: its scan, the row it is on, and where the fields it reads
/// out of other registers lie.
pub struct StackFrame<S: FactStore> {
    pub scan: Option<S::Scan>,
    pub current: Option<Register>,
    pub field_offsets: Vec<FieldOffsets>,
}

/// The value a path names in the row register `address` holds.
fn register_value(
    field_offsets: &mut Vec<FieldOffsets>,
    state: &MachineState,
    address: Address,
    path: &FieldPath,
) -> (value: Result<Vec<u8>, ApertureError>)
    requires
        state.wf(),
        offsets_fit(old(field_offsets)@, state@),
    ensures
        offsets_fit(final(field_offsets)@, state@),
        forall|r: int|
            0 <= r < final(field_offsets)@.len() && r != address.0 ==> (
            #[trigger] final(field_offsets)@[r]) == old(field_offsets)@[r],
        match (
            value,
            match machine::held(state@, address) {
                Ok(fact) => tuple::path_bytes(fact.key(), path@),
                Err(e) => Err(e),
            },
        ) {
            (Ok(bytes), Ok(expected)) => bytes@ == expected,
            (Err(e), Err(expected)) => e == expected,
            _ => false,
        },
{
    let key: ByteView = match state.get(address) {
        Ok(register) => register.key(),
        Err(e) => return Err(e),
    };
    proof {
        assert(state@[address.0 as int] is Some);
        assert(field_offsets@[address.0 as int].fits(blob::blob_bytes(key)));
    }
    path_value(&mut field_offsets[address.0], &key, path)
}

impl<S: FactStore> StackFrame<S> {
    /// A frame that has not been opened.
    pub fn closed(nvars: usize) -> (frame: Self)
        ensures
            frame.scan is None,
            frame.current is None,
            frame.field_offsets@.len() == nvars,
    {
        let mut field_offsets: Vec<FieldOffsets> = Vec::new();
        let mut i: usize = 0;
        while i < nvars
            invariant
                i <= nvars,
                field_offsets@.len() == i,
            decreases nvars - i,
        {
            field_offsets.push(FieldOffsets::new());
            i += 1;
        }
        Self { scan: None, current: None, field_offsets }
    }

    /// Forget every offset: the registers hold other rows now.
    fn forget(&mut self)
        ensures
            final(self).scan == old(self).scan,
            final(self).current == old(self).current,
            final(self).field_offsets@.len() == old(self).field_offsets@.len(),
            forall|r: int|
                0 <= r < final(self).field_offsets@.len() ==> (
                #[trigger] final(self).field_offsets@[r]).known().len() == 0,
    {
        let mut r: usize = 0;
        while r < self.field_offsets.len()
            invariant
                r <= self.field_offsets@.len(),
                self.scan == old(self).scan,
                self.current == old(self).current,
                self.field_offsets@.len() == old(self).field_offsets@.len(),
                forall|i: int|
                    0 <= i < r ==> (#[trigger] self.field_offsets@[i]).known().len() == 0,
            decreases self.field_offsets@.len() - r,
        {
            self.field_offsets[r].clear();
            r += 1;
        }
    }

    /// Open the level: scan the rows that begin with its prefix, or go on from
    /// `resume_at`.
    pub fn open(
        &mut self,
        store: &S,
        generator: &Generator,
        state: &MachineState,
        resume_at: Option<&[u8]>,
    ) -> (opened: Result<(), ApertureError>)
        requires
            state.wf(),
            old(self).field_offsets@.len() == state@.len(),
        ensures
            match (opened, machine::prefix(state@, *generator)) {
                (Ok(_), Ok(p)) => {
                    &&& final(self).scan matches Some(scan)
                    &&& scan.remaining() == (match resume_at {
                        Some(lo) => plan::between(
                            store.facts(),
                            lo@,
                            crate::bytes::successor(p),
                        ),
                        None => machine::matching(store.facts(), p),
                    })
                    &&& scan.may_fail() ==> store.may_fail()
                    &&& final(self).current is None
                    &&& offsets_fit(final(self).field_offsets@, state@)
                    &&& forall|r: int|
                        0 <= r < final(self).field_offsets@.len() ==> (
                        #[trigger] final(self).field_offsets@[r]).known().len() == 0
                    &&& resume_at matches Some(lo) ==> lo@.len() >= 4
                },
                (Err(e), Err(expected)) => e == expected,
                (Err(e), Ok(_)) => {
                    ||| store.may_fail()
                    ||| resume_at matches Some(lo) && lo@.len() < 4 && e == ApertureError::Store(
                        StoreError::ShortScanBound { len: lo@.len() as usize, expected: 4 },
                    )
                },
                _ => false,
            },
    {
        self.forget();
        let prefix: Vec<u8> = match self.build_prefix(state, generator) {
            Ok(prefix) => prefix,
            Err(e) => return Err(e),
        };
        proof {
            machine::lemma_prefix_len(state@, *generator);
            machine::lemma_between_is_matching(store.facts(), prefix@);
        }
        let hi: Option<Vec<u8>> = strinc(&prefix);
        let end: Option<&[u8]> = match &hi {
            Some(bytes) => Some(bytes.as_slice()),
            None => None,
        };
        let opened = match resume_at {
            Some(lo) => store.scan(lo, end),
            None => store.scan(&prefix, end),
        };
        match opened {
            Ok(scan) => {
                self.scan = Some(scan);
                self.current = None;
                self.forget();
                Ok(())
            },
            Err(e) => Err(e),
        }
    }

    /// What every row of the level begins with: its predicate, then its seek, with the
    /// registers' bytes spliced in.
    pub fn build_prefix(&mut self, state: &MachineState, generator: &Generator) -> (made: Result<
        Vec<u8>,
        ApertureError,
    >)
        requires
            state.wf(),
            offsets_fit(old(self).field_offsets@, state@),
        ensures
            final(self).scan == old(self).scan,
            final(self).current == old(self).current,
            offsets_fit(final(self).field_offsets@, state@),
            match (made, machine::prefix(state@, *generator)) {
                (Ok(prefix), Ok(expected)) => prefix@ == expected,
                (Err(e), Err(expected)) => e == expected,
                _ => false,
            },
    {
        let mut prefix: Vec<u8> = Vec::new();
        put_big_endian(&mut prefix, generator.access.predicate_id.0 as u64, 4);
        let ghost predicate = tuple::big_endian(generator.access.predicate_id.0 as nat, 4);
        proof {
            assert(prefix@ =~= predicate);
        }
        match &generator.access.seek_key {
            SeekKey::Prefix(bytes) => {
                append_bytes(&mut prefix, bytes);
            },
            SeekKey::Composite(parts) => {
                let mut k: usize = 0;
                while k < parts.len()
                    invariant
                        state.wf(),
                        self.scan == old(self).scan,
                        self.current == old(self).current,
                        offsets_fit(self.field_offsets@, state@),
                        generator.access.seek_key == SeekKey::Composite(*parts),
                        predicate == tuple::big_endian(
                            generator.access.predicate_id.0 as nat,
                            4,
                        ),
                        k <= parts@.len(),
                        match machine::parts_bytes(state@, parts@, k as nat) {
                            Ok(made) => prefix@ == predicate + made,
                            Err(_) => false,
                        },
                    decreases parts@.len() - k,
                {
                    let ghost before = prefix@;
                    match &parts[k] {
                        SeekKeyPart::Bytes(bytes) => {
                            append_bytes(&mut prefix, bytes);
                        },
                        SeekKeyPart::RegisterField { address, path } => {
                            match register_value(&mut self.field_offsets, state, *address, path) {
                                Ok(value) => append_bytes(&mut prefix, &value),
                                Err(e) => {
                                    proof {
                                        machine::lemma_parts_fail(
                                            state@,
                                            parts@,
                                            (k + 1) as nat,
                                            parts@.len(),
                                        );
                                    }
                                    return Err(e);
                                },
                            }
                        },
                        SeekKeyPart::RegisterFactId(address) => match state.get(*address) {
                            Ok(register) => put_fact_id(&mut prefix, register.fact_id),
                            Err(e) => {
                                proof {
                                    machine::lemma_parts_fail(
                                        state@,
                                        parts@,
                                        (k + 1) as nat,
                                        parts@.len(),
                                    );
                                }
                                return Err(e);
                            },
                        },
                    }
                    proof {
                        let made = machine::parts_bytes(state@, parts@, (k + 1) as nat)->Ok_0;
                        assert(prefix@ =~= predicate + made);
                    }
                    k += 1;
                }
            },
        }
        Ok(prefix)
    }

    /// Whether a row passes some filters: whether each field is what its filter asks.
    pub fn check_residuals(
        field_offsets: &mut Vec<FieldOffsets>,
        state: &MachineState,
        residuals: &[Residual],
        register: &Register,
    ) -> (passes: Result<bool, ApertureError>)
        requires
            state.wf(),
            register.wf(),
            offsets_fit(old(field_offsets)@, state@),
        ensures
            offsets_fit(final(field_offsets)@, state@),
            only_read(old(field_offsets)@, final(field_offsets)@, residuals@),
            passes == machine::passes(
                state@,
                residuals@,
                register.fact(),
                residuals@.len(),
            ),
    {
        let key: ByteView = register.key();
        let mut own = FieldOffsets::new();
        let mut k: usize = 0;
        while k < residuals.len()
            invariant
                state.wf(),
                blob::blob_bytes(key) == register.fact().key(),
                own.fits(blob::blob_bytes(key)),
                offsets_fit(field_offsets@, state@),
                only_read(old(field_offsets)@, field_offsets@, residuals@),
                k <= residuals@.len(),
                machine::passes(state@, residuals@, register.fact(), k as nat) == Ok::<
                    bool,
                    ApertureError,
                >(true),
            decreases residuals@.len() - k,
        {
            let residual: &Residual = &residuals[k];
            let ghost before = field_offsets@;
            let passes: Result<bool, ApertureError> = match path_value(
                &mut own,
                &key,
                &residual.path,
            ) {
                Err(e) => Err(e),
                Ok(field) => match &residual.op {
                    ResidualOp::EqConst(bytes) => Ok(same_bytes(&field, bytes)),
                    ResidualOp::Prefix(bytes) => Ok(starts_with(&field, bytes)),
                    ResidualOp::EqRegisterField { address, path } => match register_value(
                        field_offsets,
                        state,
                        *address,
                        path,
                    ) {
                        Ok(other) => Ok(same_bytes(&field, &other)),
                        Err(e) => Err(e),
                    },
                    ResidualOp::EqRegisterFactId(address) => match state.get(*address) {
                        Ok(other) => {
                            let mut reference: Vec<u8> = Vec::new();
                            put_fact_id(&mut reference, other.fact_id);
                            proof {
                                assert(reference@ =~= tuple::enc_fact(other.fact_id));
                            }
                            Ok(same_bytes(&field, &reference))
                        },
                        Err(e) => Err(e),
                    },
                },
            };
            proof {
                assert(passes == machine::passes(
                    state@,
                    residuals@,
                    register.fact(),
                    (k + 1) as nat,
                ));
                if let ResidualOp::EqRegisterField { address, .. } = residuals@[k as int].op {
                    assert(machine::op_reads(residuals@[k as int].op, address));
                    assert forall|r: int|
                        0 <= r < field_offsets@.len() && (
                        #[trigger] field_offsets@[r]).known().len() > 0 implies old(
                        field_offsets,
                    )@[r].known().len() > 0 || exists|i: int|
                        0 <= i < residuals@.len() && machine::op_reads(
                            (#[trigger] residuals@[i]).op,
                            Address(r as usize),
                        ) by {
                        if r != address.0 {
                            assert(field_offsets@[r] == before[r]);
                        } else {
                            assert(Address(r as usize) == address);
                        }
                    }
                }
            }
            match passes {
                Ok(true) => {},
                other => {
                    proof {
                        machine::lemma_passes_decided(
                            state@,
                            residuals@,
                            register.fact(),
                            (k + 1) as nat,
                            residuals@.len(),
                        );
                    }
                    return other;
                },
            }
            k += 1;
        }
        Ok(true)
    }

    /// The next row the level admits. Every [`CANCELLATION_STRIDE`] rows it looks
    /// whether the run was cancelled.
    pub fn next(
        &mut self,
        state: &MachineState,
        generator: &Generator,
        cancellation_token: &CancellationToken,
    ) -> (found: Result<Option<Register>, ApertureError>)
        requires
            state.wf(),
            offsets_fit(old(self).field_offsets@, state@),
            old(self).scan matches Some(scan) ==> whole_rows(scan.remaining()),
        ensures
            next_is(*old(self), *final(self), state@, *generator, found, true),
    {
        self.seek_on(state, generator, Some(cancellation_token))
    }

    /// The same, without a token where nothing may cancel it.
    fn seek_on(
        &mut self,
        state: &MachineState,
        generator: &Generator,
        token: Option<&CancellationToken>,
    ) -> (found: Result<Option<Register>, ApertureError>)
        requires
            state.wf(),
            offsets_fit(old(self).field_offsets@, state@),
            old(self).scan matches Some(scan) ==> whole_rows(scan.remaining()),
        ensures
            next_is(*old(self), *final(self), state@, *generator, found, token is Some),
    {
        if self.scan.is_none() {
            return Err(ApertureError::AdvanceAfterClose);
        }
        let ghost all = self.scan->0.remaining();
        let mut since_check: usize = 0;
        loop
            invariant
                state.wf(),
                offsets_fit(self.field_offsets@, state@),
                only_read(
                    old(self).field_offsets@,
                    self.field_offsets@,
                    generator.residuals@,
                ),
                self.current == old(self).current,
                old(self).scan matches Some(scan) && scan.remaining() == all,
                self.scan matches Some(scan) && whole_rows(scan.remaining()) && scan.may_fail()
                    == old(self).scan->0.may_fail(),
                machine::sought(state@, *generator, all) == machine::sought(
                    state@,
                    *generator,
                    self.scan->0.remaining(),
                ),
                since_check + self.scan->0.remaining().len() <= all.len(),
                since_check < CANCELLATION_STRIDE,
            decreases self.scan->0.remaining().len(),
        {
            let ghost left = self.scan->0.remaining();
            let row = match &mut self.scan {
                Some(scan) => scan.next_row(),
                None => None,
            };
            let (bytes, fact_id) = match row {
                None => return Ok(None),
                Some(read) => {
                    match read {
                        Ok(found) => found,
                        Err(e) => return Err(e),
                    }
                },
            };
            proof {
                assert(self.scan->0.remaining() == left.skip(1));
                assert(whole_rows(left.skip(1))) by {
                    assert forall|i: int| 0 <= i < left.skip(1).len() implies (
                    #[trigger] left.skip(1)[i]).row.len() >= 4 by {
                        assert(left.skip(1)[i] == left[i + 1]);
                    }
                }
            }
            since_check += 1;
            if since_check == CANCELLATION_STRIDE {
                if let Some(set) = token {
                    if is_cancelled(set) {
                        return Err(ApertureError::Cancelled);
                    }
                }
                since_check = 0;
            }
            let current = Register { fact_id, bytes };
            proof {
                assert(current.fact() == left[0]);
            }
            match Self::check_residuals(
                &mut self.field_offsets,
                state,
                &generator.residuals,
                &current,
            ) {
                Err(e) => return Err(e),
                Ok(false) => {},
                Ok(true) => {
                    self.current = Some(current.share());
                    return Ok(Some(current));
                },
            }
        }
    }
}

/// Every row holds its predicate's bytes at least.
pub open spec fn whole_rows(facts: Seq<Fact>) -> bool {
    forall|i: int| 0 <= i < facts.len() ==> (#[trigger] facts[i]).row.len() >= 4
}

/// What advancing a frame comes to: the next candidate its level admits, or the error
/// that stopped the search.
pub open spec fn next_is<S: FactStore>(
    before: StackFrame<S>,
    after: StackFrame<S>,
    env: Seq<Option<Fact>>,
    level: Generator,
    found: Result<Option<Register>, ApertureError>,
    cancellable: bool,
) -> bool {
    match before.scan {
        None => found == Err::<Option<Register>, ApertureError>(
            ApertureError::AdvanceAfterClose,
        ) && after == before,
        Some(scan) => match (found, machine::sought(env, level, scan.remaining())) {
            (Ok(row), Ok((expected, rest))) => {
                &&& content(row) == expected
                &&& after.scan matches Some(open)
                &&& open.remaining() == rest
                &&& open.may_fail() == scan.may_fail()
                &&& row matches Some(register) ==> register.wf() && content(after.current)
                    == expected && after.current->0.wf()
                &&& row is None ==> after.current == before.current
                &&& offsets_fit(after.field_offsets@, env)
                &&& only_read(before.field_offsets@, after.field_offsets@, level.residuals@)
            },
            (Err(e), Err(expected)) if e == expected => true,
            (Err(e), _) => scan.may_fail() || (cancellable && e is Cancelled
                && scan.remaining().len() >= CANCELLATION_STRIDE),
            _ => false,
        },
    }
}

// ---- projection -------------------------------------------------------------

/// What a plan asks for where it projects a computed value.
pub const KIND_COMPUTED: &'static str = "a computed value";

/// What a register holds where a level bound it.
pub const KIND_ROW: &'static str = "a row";

/// The value some bytes decode to.
pub open spec fn read_value(names: Names, bytes: Seq<u8>, ty: PredicateTy) -> Result<
    Datum,
    ApertureError,
> {
    match tuple::decoded_value(names, bytes, ty) {
        Ok(value) => Ok(value),
        Err(e) => Err(ApertureError::Decode(e)),
    }
}

/// What a head comes to on the row the registers hold. A field is decoded out of its
/// row's key; a value is one read of the fact behind the row.
pub open spec fn projected<S: FactStore>(
    store: S,
    names: Names,
    env: Seq<Option<Fact>>,
    head: Projection,
) -> Result<Datum, ApertureError>
    decreases head, 1nat, 0nat,
{
    match head {
        Projection::Lit(value) => Ok(value),
        Projection::FactRef(address) => match machine::held(env, address) {
            Ok(fact) => Ok(Datum::FactRef(fact.id)),
            Err(e) => Err(e),
        },
        Projection::RegisterField { address, path, ty } => match machine::held(env, address) {
            Ok(fact) => match tuple::path_bytes(fact.key(), path@) {
                Ok(bytes) => read_value(names, bytes, ty),
                Err(e) => Err(e),
            },
            Err(e) => Err(e),
        },
        Projection::Value { address, ty } => match machine::held(env, address) {
            Ok(fact) => match store.entity(fact.id) {
                Some((_, value)) => read_value(names, value, ty),
                None => Err(ApertureError::Store(StoreError::DanglingFactId(fact.id))),
            },
            Err(e) => Err(e),
        },
        Projection::Computed(address) => match machine::held(env, address) {
            Ok(_) => Err(
                ApertureError::SlotKindMismatch { address, wanted: KIND_COMPUTED, held: KIND_ROW },
            ),
            Err(e) => Err(e),
        },
        Projection::Record(fields) => match projected_fields(
            store,
            names,
            env,
            fields,
            fields.len(),
            head,
        ) {
            Ok(found) => Ok(Datum::Record(found)),
            Err(e) => Err(e),
        },
    }
}

/// The first `k` fields of a record head.
pub open spec fn projected_fields<S: FactStore>(
    store: S,
    names: Names,
    env: Seq<Option<Fact>>,
    fields: Seq<(Symbol, Projection)>,
    k: nat,
    whole: Projection,
) -> Result<Seq<(Seq<char>, Datum)>, ApertureError>
    decreases whole, 0nat, k,
{
    if k == 0 {
        Ok(Seq::empty())
    } else {
        match projected_fields(store, names, env, fields, (k - 1) as nat, whole) {
            Ok(before) => {
                let (symbol, head) = fields[k - 1];
                match names.text(symbol) {
                    None => Err(ApertureError::Decode(StoreCodecError::UnknownSymbol(symbol))),
                    Some(name) => if decreases_to!(whole => head) {
                        match projected(store, names, env, head) {
                            Ok(value) => Ok(before.push((name, value))),
                            Err(e) => Err(e),
                        }
                    } else {
                        arbitrary()
                    },
                }
            },
            Err(e) => Err(e),
        }
    }
}

proof fn lemma_projected_fields_fail<S: FactStore>(
    store: S,
    names: Names,
    env: Seq<Option<Fact>>,
    fields: Seq<(Symbol, Projection)>,
    k: nat,
    n: nat,
    whole: Projection,
)
    requires
        k <= n,
        projected_fields(store, names, env, fields, k, whole) is Err,
    ensures
        projected_fields(store, names, env, fields, n, whole) == projected_fields(
            store,
            names,
            env,
            fields,
            k,
            whole,
        ),
    decreases n,
{
    if k < n {
        lemma_projected_fields_fail(store, names, env, fields, k, (n - 1) as nat, whole);
    }
}

/// Whether a projection is what it should be, or the store failed.
pub open spec fn projects<S: FactStore>(
    store: S,
    found: Result<Value, ApertureError>,
    expected: Result<Datum, ApertureError>,
) -> bool {
    match (found, expected) {
        (Ok(value), Ok(datum)) => value.datum() == datum,
        (Err(e), Err(why)) if e == why => true,
        (Err(_), _) => store.may_fail(),
        _ => false,
    }
}

fn decode_field(interner: &LocalInterner, bytes: &[u8], ty: &PredicateTy) -> (value: Result<
    Value,
    ApertureError,
>)
    ensures
        match (value, read_value(interner@, bytes@, *ty)) {
            (Ok(found), Ok(expected)) => found.datum() == expected,
            (Err(e), Err(expected)) => e == expected,
            _ => false,
        },
{
    match decode_typed(interner, bytes, ty) {
        Ok(value) => Ok(value),
        Err(e) => Err(ApertureError::Decode(e)),
    }
}

pub(crate) fn project<S: FactStore>(
    interner: &LocalInterner,
    head: &Project,
    state: &MachineState,
    store: &S,
) -> (value: Result<Value, ApertureError>)
    requires
        state.wf(),
    ensures
        projects(*store, value, projected(*store, interner@, state@, head.shape())),
    decreases *head,
{
    match head {
        Project::Lit(value) => Ok(value.duplicate()),
        Project::FactRef(address) => match state.get(*address) {
            Ok(register) => Ok(Value::FactRef(register.fact_id)),
            Err(e) => Err(e),
        },
        Project::RegisterField { address, path, ty } => {
            let key: ByteView = match state.get(*address) {
                Ok(register) => register.key(),
                Err(e) => return Err(e),
            };
            let mut offsets = FieldOffsets::new();
            match path_value(&mut offsets, &key, path) {
                Ok(field) => decode_field(interner, &field, ty),
                Err(e) => Err(e),
            }
        },
        Project::Value { address, ty } => {
            let id: FactId = match state.get(*address) {
                Ok(register) => register.fact_id,
                Err(e) => return Err(e),
            };
            match store.point(id) {
                Ok(Some(entity)) => decode_field(interner, as_bytes(&entity.value), ty),
                Ok(None) => Err(ApertureError::Store(StoreError::DanglingFactId(id))),
                Err(e) => Err(e),
            }
        },
        Project::Computed(address) => match state.get(*address) {
            Ok(_) => Err(
                ApertureError::SlotKindMismatch {
                    address: *address,
                    wanted: KIND_COMPUTED,
                    held: KIND_ROW,
                },
            ),
            Err(e) => Err(e),
        },
        Project::Record(fields) => {
            let ghost shapes = head.shape()->Record_0;
            let mut out: Vec<(String, Value)> = Vec::new();
            let ghost mut found: Seq<(Seq<char>, Datum)> = Seq::empty();
            let mut k: usize = 0;
            while k < fields.len()
                invariant
                    state.wf(),
                    *head == Project::Record(*fields),
                    head.shape() == Projection::Record(shapes),
                    shapes.len() == fields@.len(),
                    forall|i: int|
                        0 <= i < fields@.len() ==> shapes[i] == ((#[trigger] fields@[i]).0, fields@[i].1.shape()),
                    k <= fields@.len(),
                    projected_fields(*store, interner@, state@, shapes, k as nat, head.shape())
                        == Ok::<Seq<(Seq<char>, Datum)>, ApertureError>(found),
                    out@.len() == found.len(),
                    forall|i: int|
                        0 <= i < out@.len() ==> found[i] == ((#[trigger] out@[i]).0@, out@[i].1.datum()),
                decreases fields@.len() - k,
            {
                let symbol: Symbol = fields[k].0;
                let name = match interner.try_resolve(symbol) {
                    Some(text) => text.to_owned(),
                    None => {
                        proof {
                            assert(shapes[k as int].0 == symbol);
                            lemma_projected_fields_fail(
                                *store,
                                interner@,
                                state@,
                                shapes,
                                (k + 1) as nat,
                                shapes.len(),
                                head.shape(),
                            );
                        }
                        return Err(ApertureError::Decode(StoreCodecError::UnknownSymbol(symbol)));
                    },
                };
                proof {
                    assert(decreases_to!(*head => (*head)->Record_0));
                    assert((*head)->Record_0 == *fields);
                    assert(decreases_to!(*fields => fields@));
                    assert(decreases_to!(fields@ => fields@[k as int]));
                    assert(decreases_to!(fields@[k as int] => fields@[k as int].1));
                    assert(decreases_to!(head.shape() => shapes));
                    assert(decreases_to!(shapes => shapes[k as int]));
                    assert(decreases_to!(shapes[k as int] => shapes[k as int].1));
                }
                match project(interner, &fields[k].1, state, store) {
                    Ok(value) => {
                        proof {
                            found = found.push((name@, value.datum()));
                        }
                        out.push((name, value));
                    },
                    Err(e) => {
                        proof {
                            if projected_fields(
                                *store,
                                interner@,
                                state@,
                                shapes,
                                (k + 1) as nat,
                                head.shape(),
                            ) is Err {
                                lemma_projected_fields_fail(
                                    *store,
                                    interner@,
                                    state@,
                                    shapes,
                                    (k + 1) as nat,
                                    shapes.len(),
                                    head.shape(),
                                );
                            }
                        }
                        return Err(e);
                    },
                }
                k += 1;
            }
            let record = Value::Record(out);
            proof {
                assert(record.datum()->Record_0 =~= found);
            }
            Ok(record)
        },
    }
}

// ---- the executor -----------------------------------------------------------

/// A plan running against a store. Between two rows it is at a [`Place`], from which
/// everything still to come follows.
pub struct Executor<S: FactStore> {
    store: S,
    plan: Plan,
    state: MachineState,
    stack: Vec<StackFrame<S>>,
    depth: usize,
    /// How many levels have ever admitted a row.
    reached: Ghost<nat>,
}

/// Where frames stand.
pub open spec fn place_of<S: FactStore>(frames: Seq<StackFrame<S>>, depth: nat) -> Place {
    Place {
        stack: Seq::new(depth, |i: int| frames[i].current->0.fact()),
        rest: Seq::new(depth, |i: int| frames[i].scan->0.remaining()),
        open: if depth < frames.len() {
            scan_left(frames[depth as int].scan)
        } else {
            None
        },
        last: if depth < frames.len() {
            content(frames[depth as int].current)
        } else {
            None
        },
    }
}

/// An open frame: its scan yields whole rows, and what it remembers of the registers is
/// true of `env`.
pub open spec fn frame_open<S: FactStore>(
    frame: StackFrame<S>,
    store: S,
    env: Seq<Option<Fact>>,
) -> bool {
    &&& frame.scan matches Some(scan)
    &&& whole_rows(scan.remaining())
    &&& scan.may_fail() ==> store.may_fail()
    &&& offsets_fit(frame.field_offsets@, env)
}

/// The frames of a run whose outer levels are on `rows`: the outer ones are open and on
/// a row, the inner ones are closed.
pub open spec fn frames_ok<S: FactStore>(
    frames: Seq<StackFrame<S>>,
    store: S,
    body: Seq<Generator>,
    nvars: nat,
    rows: Seq<Fact>,
    depth: nat,
) -> bool {
    &&& depth <= frames.len()
    &&& rows.len() == depth
    &&& forall|i: int| 0 <= i < frames.len() ==> (#[trigger] frames[i]).field_offsets@.len() == nvars
    &&& forall|i: int|
        0 <= i < depth ==> frame_open(
            #[trigger] frames[i],
            store,
            machine::env_of(body, nvars, rows, i as nat),
        ) && (frames[i].current matches Some(row) && row.wf())
    &&& depth < frames.len() ==> {
        let frame = frames[depth as int];
        &&& frame.scan is Some ==> frame_open(
            frame,
            store,
            machine::env_of(body, nvars, rows, depth),
        )
        &&& frame.scan is None ==> frame.current is None
        &&& frame.current matches Some(row) ==> row.wf()
    }
    &&& forall|i: int|
        depth < i < frames.len() ==> (#[trigger] frames[i]).scan is None
            && frames[i].current is None
}

/// Into the level inside.
proof fn lemma_frames_entered<S: FactStore>(
    frames: Seq<StackFrame<S>>,
    store: S,
    body: Seq<Generator>,
    nvars: nat,
    rows: Seq<Fact>,
    depth: nat,
    frame: StackFrame<S>,
)
    requires
        frames_ok(frames, store, body, nvars, rows, depth),
        depth < frames.len(),
        frame_open(frame, store, machine::env_of(body, nvars, rows, depth)),
        frame.field_offsets@.len() == nvars,
        frame.current matches Some(row) && row.wf(),
    ensures
        frames_ok(
            frames.update(depth as int, frame),
            store,
            body,
            nvars,
            rows.push(frame.current->0.fact()),
            depth + 1,
        ),
{
    let after = frames.update(depth as int, frame);
    let more = rows.push(frame.current->0.fact());
    assert forall|i: int| 0 <= i < after.len() implies (
    #[trigger] after[i]).field_offsets@.len() == nvars by {
        if i != depth {
            assert(after[i] == frames[i]);
        }
    }
    assert forall|i: int| 0 <= i < depth + 1 implies frame_open(
        #[trigger] after[i],
        store,
        machine::env_of(body, nvars, more, i as nat),
    ) && (after[i].current matches Some(row) && row.wf()) by {
        machine::lemma_env_prefix(body, nvars, rows, more, i as nat);
        if i != depth {
            assert(after[i] == frames[i]);
        }
    }
    assert forall|i: int| depth < i < after.len() implies (#[trigger] after[i]).scan is None
        && after[i].current is None by {
        assert(after[i] == frames[i]);
    }
}

/// Back to the level outside, the level under way being closed or past its row.
proof fn lemma_frames_left<S: FactStore>(
    frames: Seq<StackFrame<S>>,
    store: S,
    body: Seq<Generator>,
    nvars: nat,
    rows: Seq<Fact>,
    depth: nat,
)
    requires
        frames_ok(frames, store, body, nvars, rows, depth),
        depth < frames.len() ==> frames[depth as int].scan is None,
        0 < depth,
    ensures
        frames_ok(frames, store, body, nvars, rows.drop_last(), (depth - 1) as nat),
{
    let fewer = rows.drop_last();
    assert forall|i: int| 0 <= i < depth implies machine::env_of(body, nvars, rows, i as nat)
        == #[trigger] machine::env_of(body, nvars, fewer, i as nat) by {
        machine::lemma_env_prefix(body, nvars, rows, fewer, i as nat);
    }
    assert(frame_open(
        frames[depth - 1],
        store,
        machine::env_of(body, nvars, rows, (depth - 1) as nat),
    ));
    assert forall|i: int| 0 <= i < depth - 1 implies frame_open(
        #[trigger] frames[i],
        store,
        machine::env_of(body, nvars, fewer, i as nat),
    ) && (frames[i].current matches Some(row) && row.wf()) by {
        assert(frame_open(frames[i], store, machine::env_of(body, nvars, rows, i as nat)));
        assert(machine::env_of(body, nvars, rows, i as nat) == machine::env_of(
            body,
            nvars,
            fewer,
            i as nat,
        ));
    }
}

/// The level under way is opened, advanced or closed.
proof fn lemma_frames_changed<S: FactStore>(
    frames: Seq<StackFrame<S>>,
    store: S,
    body: Seq<Generator>,
    nvars: nat,
    rows: Seq<Fact>,
    depth: nat,
    frame: StackFrame<S>,
)
    requires
        frames_ok(frames, store, body, nvars, rows, depth),
        depth < frames.len(),
        frame.scan is Some ==> frame_open(
            frame,
            store,
            machine::env_of(body, nvars, rows, depth),
        ),
        frame.scan is None ==> frame.current is None,
        frame.current matches Some(row) ==> row.wf(),
        frame.field_offsets@.len() == nvars,
    ensures
        frames_ok(frames.update(depth as int, frame), store, body, nvars, rows, depth),
{
    let after = frames.update(depth as int, frame);
    assert forall|i: int| 0 <= i < after.len() implies (
    #[trigger] after[i]).field_offsets@.len() == nvars by {
        if i != depth {
            assert(after[i] == frames[i]);
        }
    }
    assert forall|i: int| 0 <= i < depth implies frame_open(
        #[trigger] after[i],
        store,
        machine::env_of(body, nvars, rows, i as nat),
    ) && (after[i].current matches Some(row) && row.wf()) by {
        assert(after[i] == frames[i]);
    }
    assert forall|i: int| depth < i < after.len() implies (#[trigger] after[i]).scan is None
        && after[i].current is None by {
        assert(after[i] == frames[i]);
    }
}

/// What filtering made a frame remember is true of the outer rows.
proof fn lemma_offsets_kept(
    before: Seq<FieldOffsets>,
    after: Seq<FieldOffsets>,
    level: Generator,
    regs: Seq<Option<Fact>>,
    env: Seq<Option<Fact>>,
)
    requires
        offsets_fit(before, env),
        offsets_fit(after, regs),
        only_read(before, after, level.residuals@),
        machine::same_to(regs, env, level),
        regs.len() == env.len(),
        env.len() <= usize::MAX,
        forall|r: int| 0 <= r < env.len() && (#[trigger] env[r]) is Some ==> regs[r] == env[r],
    ensures
        offsets_fit(after, env),
{
    assert forall|r: int| 0 <= r < env.len() implies ((
    #[trigger] after[r]).known().len() == 0 || (env[r] matches Some(fact) && after[r].fits(
        fact.key(),
    ))) by {
        if after[r].known().len() > 0 && before[r].known().len() == 0 {
            let address = Address(r as usize);
            let i = choose|i: int|
                0 <= i < level.residuals@.len() && machine::op_reads(
                    (#[trigger] level.residuals@[i]).op,
                    address,
                );
            assert(machine::filters_read(level, address));
            assert(machine::reads(level, address));
            assert(machine::held(regs, address) == machine::held(env, address));
        }
    }
}

impl<S: FactStore> Executor<S> {
    /// The key index the plan runs over.
    pub closed spec fn facts(self) -> Seq<Fact> {
        self.store.facts()
    }

    /// The store the plan runs against.
    pub closed spec fn source(self) -> S {
        self.store
    }

    /// The plan.
    pub closed spec fn program(self) -> Plan {
        self.plan
    }

    /// The levels of the plan.
    pub open spec fn body(self) -> Seq<Generator> {
        self.program().body@
    }

    /// How many registers the plan has.
    pub open spec fn nvars(self) -> nat {
        self.program().nvars as nat
    }

    /// Where the run stands.
    pub closed spec fn place(self) -> Place {
        place_of(self.stack@, self.depth as nat)
    }

    /// Everything the run has yet to do.
    #[verifier::opaque]
    pub open spec fn pending(self) -> Run {
        self.place().pending(self.source().facts(), self.body(), self.nvars())
    }

    /// Whether every level is on one of its own candidates. A run that was not taken up
    /// from somebody else's cursor always is.
    #[verifier::opaque]
    pub open spec fn faithful(self) -> bool {
        self.place().faithful(self.source().facts(), self.body(), self.nvars())
    }

    /// A run that no error has ended.
    #[verifier::opaque]
    pub closed spec fn wf(self) -> bool {
        &&& machine::binds_once(self.plan.body@)
        &&& self.stack@.len() == self.plan.body@.len()
        &&& self.depth <= self.stack@.len()
        &&& self.state.wf()
        &&& self.place().wf(self.store.facts(), self.plan.body@, self.plan.nvars as nat)
        &&& machine::agrees(
            self.plan.body@,
            self.plan.nvars as nat,
            self.place().stack,
            self.state@,
            self.reached@,
        )
        &&& frames_ok(
            self.stack@,
            self.store,
            self.plan.body@,
            self.plan.nvars as nat,
            self.place().stack,
            self.depth as nat,
        )
    }

    /// A plan that has not run yet.
    pub fn new(store: S, plan: Plan) -> (executor: Self)
        requires
            machine::binds_once(plan.body@),
        ensures
            executor.wf(),
            executor.source() == store,
            executor.program() == plan,
            executor.place() == Place::start(),
            executor.faithful(),
            executor.pending() == machine::run(
                store.facts(),
                plan.body@,
                machine::unbound(plan.nvars as nat),
                0,
            ),
    {
        proof {
            reveal(Executor::wf);
            reveal(Executor::pending);
            reveal(Executor::faithful);
        }
        let nvars: usize = plan.nvars;
        let nframes: usize = plan.body.len();
        let mut stack: Vec<StackFrame<S>> = Vec::new();
        let mut i: usize = 0;
        while i < nframes
            invariant
                i <= nframes,
                stack@.len() == i,
                forall|j: int|
                    0 <= j < i ==> (#[trigger] stack@[j]).scan is None && stack@[j].current is None
                        && stack@[j].field_offsets@.len() == nvars,
            decreases nframes - i,
        {
            stack.push(StackFrame::closed(nvars));
            i += 1;
        }
        let executor = Self {
            store,
            plan,
            state: MachineState::new(nvars),
            stack,
            depth: 0,
            reached: Ghost(0nat),
        };
        proof {
            assert(executor.place() =~= Place::start());
            let run = machine::run(
                store.facts(),
                plan.body@,
                machine::unbound(plan.nvars as nat),
                0,
            );
            assert(run.chain(Run::nothing()) =~= run);
        }
        executor
    }

    /// Whether an error can have come from outside the plan: from the store, or, where
    /// a token is looked at, from whoever set it. A token is looked at only once a
    /// level has read [`CANCELLATION_STRIDE`] rows in a row.
    pub open spec fn from_outside(self, e: ApertureError, cancellable: bool) -> bool {
        ||| self.source().may_fail()
        ||| cancellable && e is Cancelled && self.source().facts().len() >= CANCELLATION_STRIDE
    }

    /// Whether an error is the one the run comes to before its next row.
    pub open spec fn fails_with(self, e: ApertureError) -> bool {
        self.pending().rows.len() == 0 && self.pending().error == Some(e)
    }

    /// The registers the level under way reads are the ones its outer rows bound, and
    /// what its frame remembers of them is true.
    proof fn lemma_ready(&self)
        requires
            self.wf(),
            self.depth < self.stack@.len(),
        ensures
            machine::same_to(
                self.state@,
                self.place().env(self.body(), self.nvars()),
                self.body()[self.depth as int],
            ),
            self.state@.len() == self.nvars(),
            self.place().depth() == self.depth,
            self.place().env(self.body(), self.nvars()).len() == self.nvars(),
            self.state.wf(),
            self.stack@.len() == self.body().len(),
            self.stack@[self.depth as int].field_offsets@.len() == self.nvars(),
            self.stack@[self.depth as int].scan matches Some(scan) ==> {
                &&& offsets_fit(self.stack@[self.depth as int].field_offsets@, self.state@)
                &&& whole_rows(scan.remaining())
                &&& scan.may_fail() ==> self.store.may_fail()
            },
    {
        reveal(Executor::wf);
        let at = self.place();
        let env = at.env(self.body(), self.nvars());
        machine::lemma_agrees_reads(
            self.body(),
            self.nvars(),
            at.stack,
            self.state@,
            self.reached@,
        );
        machine::lemma_env_len(self.body(), self.nvars(), at.stack, at.depth());
        let frame = self.stack@[self.depth as int];
        if frame.scan is Some {
            assert(frame_open(frame, self.store, env));
            assert forall|r: int| 0 <= r < self.state@.len() implies ((
            #[trigger] frame.field_offsets@[r]).known().len() == 0 || (
            self.state@[r] matches Some(fact) && frame.field_offsets@[r].fits(fact.key()))) by {
                if env[r] is Some {
                    assert(self.state@[r] == env[r]);
                }
            }
        }
    }

    /// Open the level under way.
    fn open_level(&mut self) -> (opened: Result<(), ApertureError>)
        requires
            old(self).wf(),
            old(self).depth < old(self).stack@.len(),
            old(self).stack@[old(self).depth as int].scan is None,
        ensures
            final(self).source() == old(self).source(),
            final(self).program() == old(self).program(),
            match opened {
                Ok(_) => {
                    &&& final(self).wf()
                    &&& final(self).depth == old(self).depth
                    &&& final(self).stack@[final(self).depth as int].scan is Some
                    &&& machine::a_step_later(old(self).pending(), final(self).pending())
                    &&& old(self).faithful() ==> final(self).faithful()
                },
                Err(e) => old(self).fails_with(e) || old(self).from_outside(e, false),
            },
    {
        proof {
            reveal(Executor::wf);
            reveal(Executor::pending);
            reveal(Executor::faithful);
        }
        let d: usize = self.depth;
        let ghost at = self.place();
        let ghost env = at.env(self.body(), self.nvars());
        let ghost frames = self.stack@;
        proof {
            self.lemma_ready();
            machine::lemma_prefix_agrees(self.state@, env, self.body()[d as int]);
        }
        let opened = self.stack[d].open(&self.store, &self.plan.body[d], &self.state, None);
        match opened {
            Err(e) => Err(e),
            Ok(_) => {
                proof {
                    let p = machine::prefix(env, self.body()[d as int])->Ok_0;
                    let all = machine::matching(self.store.facts(), p);
                    machine::lemma_opened(
                        at,
                        self.store.facts(),
                        self.body(),
                        self.nvars(),
                        p,
                    );
                    let next = self.place();
                    assert(next =~= at.opened(all));
                    machine::lemma_prefix_len(env, self.body()[d as int]);
                    self.store.facts_are_sorted();
                    machine::lemma_matching_sorted(self.store.facts(), p);
                    assert(whole_rows(all)) by {
                        assert forall|i: int| 0 <= i < all.len() implies (
                        #[trigger] all[i]).row.len() >= 4 by {
                            assert(crate::bytes::begins_with(all[i].row, p));
                        }
                    }
                    let frame = self.stack@[d as int];
                    assert(offsets_fit(frame.field_offsets@, env));
                    lemma_frames_changed(
                        frames,
                        self.store,
                        self.body(),
                        self.nvars(),
                        at.stack,
                        d as nat,
                        frame,
                    );
                    assert(self.stack@ =~= frames.update(d as int, frame));
                }
                Ok(())
            },
        }
    }

    /// What looking for the next row comes to, stated of the outer rows.
    proof fn lemma_searched(self)
        requires
            self.wf(),
            self.depth < self.stack@.len(),
            self.stack@[self.depth as int].scan is Some,
        ensures
            ({
                let at = self.place();
                let (facts, body, nvars) = (self.store.facts(), self.body(), self.nvars());
                let env = at.env(body, nvars);
                let level = body[self.depth as int];
                let left = at.open->0;
                let sought = machine::sought(env, level, left);
                &&& at.open is Some
                &&& left == self.stack@[self.depth as int].scan->0.remaining()
                &&& sought == machine::sought(self.state@, level, left)
                &&& left.len() <= facts.len()
                &&& sought matches Err(e) ==> self.fails_with(e)
                &&& sought matches Ok((found, rest)) ==> {
                    let next = Place {
                        open: Some(
                            match found {
                                Some(fact) => seq![fact] + rest,
                                None => rest,
                            },
                        ),
                        ..at
                    };
                    &&& next.wf(facts, body, nvars)
                    &&& self.faithful() ==> next.faithful(facts, body, nvars)
                    &&& next.pending(facts, body, nvars).rows == self.pending().rows
                    &&& next.pending(facts, body, nvars).error == self.pending().error
                    &&& next.pending(facts, body, nvars).steps <= self.pending().steps
                    &&& found matches Some(fact) ==> machine::admits(env, level, fact) == Ok::<
                        bool,
                        ApertureError,
                    >(true)
                    &&& found is None ==> rest.len() == 0
                }
            }),
    {
        reveal(Executor::wf);
        reveal(Executor::pending);
        reveal(Executor::faithful);
        let at = self.place();
        let env = at.env(self.body(), self.nvars());
        let level = self.body()[self.depth as int];
        let left = at.open->0;
        self.lemma_ready();
        machine::lemma_sought_agrees(self.state@, env, level, left);
        machine::lemma_sought(at, self.store.facts(), self.body(), self.nvars());
    }

    /// An error in the search is the run's, and the search is no longer than the index.
    proof fn lemma_search_ends(self)
        requires
            self.wf(),
            self.depth < self.stack@.len(),
            self.stack@[self.depth as int].scan is Some,
        ensures
            ({
                let left = self.stack@[self.depth as int].scan->0.remaining();
                &&& left.len() <= self.store.facts().len()
                &&& machine::sought(
                    self.state@,
                    self.body()[self.depth as int],
                    left,
                ) matches Err(e) ==> self.fails_with(e)
            }),
    {
        self.lemma_searched();
    }

    /// The same run, with the level under way closed.
    spec fn closes(self, after: Self) -> bool {
        let d = self.depth as int;
        &&& after.store == self.store
        &&& after.plan == self.plan
        &&& after.state == self.state
        &&& after.reached == self.reached
        &&& after.stack@ == self.stack@.update(d, after.stack@[d])
        &&& after.stack@[d].scan is None
        &&& after.stack@[d].current is None
        &&& after.stack@[d].field_offsets@.len() == self.nvars()
    }

    /// Where the outermost level has nothing left, the run is over, and the next one
    /// begins anew.
    proof fn lemma_finished(self, after: Self)
        requires
            self.wf(),
            0 == self.depth < self.stack@.len(),
            self.stack@[0].scan is Some,
            machine::sought(
                self.state@,
                self.body()[0],
                self.stack@[0].scan->0.remaining(),
            ) matches Ok((None, _)),
            self.closes(after),
            after.depth == 0,
        ensures
            after.wf(),
            after.faithful(),
            after.place() == Place::start(),
            self.pending().rows.len() == 0,
            self.pending().error is None,
    {
        reveal(Executor::wf);
        reveal(Executor::pending);
        reveal(Executor::faithful);
        self.lemma_searched();
        let at = self.place();
        assert(at.stack =~= Seq::<Fact>::empty());
        assert(after.place() =~= Place::start());
        lemma_frames_changed(
            self.stack@,
            self.store,
            self.body(),
            self.nvars(),
            at.stack,
            0,
            after.stack@[0],
        );
    }

    /// Where a level has nothing left, the level outside goes on.
    proof fn lemma_backed_out(self, after: Self)
        requires
            self.wf(),
            0 < self.depth < self.stack@.len(),
            self.stack@[self.depth as int].scan is Some,
            machine::sought(
                self.state@,
                self.body()[self.depth as int],
                self.stack@[self.depth as int].scan->0.remaining(),
            ) matches Ok((None, _)),
            self.closes(after),
            after.depth + 1 == self.depth,
        ensures
            after.wf(),
            self.faithful() ==> after.faithful(),
            after.pending().rows == self.pending().rows,
            after.pending().error == self.pending().error,
            after.pending().steps < self.pending().steps,
    {
        reveal(Executor::wf);
        reveal(Executor::pending);
        reveal(Executor::faithful);
        self.lemma_searched();
        let at = self.place();
        let d = self.depth as nat;
        let (facts, body, nvars) = (self.store.facts(), self.body(), self.nvars());
        let level = body[d as int];
        let (_, rest) = machine::sought(at.env(body, nvars), level, at.open->0)->Ok_0;
        let dry = Place { open: Some(rest), ..at };
        machine::lemma_exhausted(dry, facts, body, nvars);
        machine::lemma_agrees_left(body, nvars, at.stack, self.state@, self.reached@);
        lemma_frames_changed(
            self.stack@,
            self.store,
            body,
            nvars,
            at.stack,
            d,
            after.stack@[d as int],
        );
        lemma_frames_left(after.stack@, self.store, body, nvars, at.stack, d);
        assert(after.place() =~= dry.left());
    }

    /// A row the level admits, bound, leads into the level inside.
    proof fn lemma_moved_in(self, after: Self, fact: Fact)
        requires
            self.wf(),
            self.depth < self.stack@.len(),
            self.stack@[self.depth as int].scan is Some,
            machine::sought(
                self.state@,
                self.body()[self.depth as int],
                self.stack@[self.depth as int].scan->0.remaining(),
            ) matches Ok((Some(found), rest)) && found == fact && scan_left(
                after.stack@[self.depth as int].scan,
            ) == Some(rest),
            after.stack@[self.depth as int].scan->0.may_fail()
                == self.stack@[self.depth as int].scan->0.may_fail(),
            machine::stray(self.body()[self.depth as int].binds@, self.nvars(), 0) is None,
            after.store == self.store,
            after.plan == self.plan,
            after.state.wf(),
            after.state@ == machine::bound(
                self.state@,
                self.body()[self.depth as int].binds@,
                fact,
            ),
            after.reached@ == if self.reached@ > self.depth {
                self.reached@
            } else {
                (self.depth + 1) as nat
            },
            after.stack@ == self.stack@.update(
                self.depth as int,
                after.stack@[self.depth as int],
            ),
            after.stack@[self.depth as int].current matches Some(row) && row.fact() == fact
                && row.wf(),
            offsets_fit(after.stack@[self.depth as int].field_offsets@, self.state@),
            only_read(
                self.stack@[self.depth as int].field_offsets@,
                after.stack@[self.depth as int].field_offsets@,
                self.body()[self.depth as int].residuals@,
            ),
            after.depth == self.depth + 1,
        ensures
            after.place() == (Place {
                stack: self.place().stack.push(fact),
                rest: self.place().rest.push(
                    after.stack@[self.depth as int].scan->0.remaining(),
                ),
                open: None,
                last: None,
            }),
            after.wf(),
            self.faithful() ==> after.faithful(),
            after.pending().rows == self.pending().rows,
            after.pending().error == self.pending().error,
            after.pending().steps < self.pending().steps,
    {
        reveal(Executor::wf);
        reveal(Executor::pending);
        reveal(Executor::faithful);
        self.lemma_searched();
        self.lemma_ready();
        let at = self.place();
        let d = self.depth as nat;
        let (facts, body, nvars) = (self.store.facts(), self.body(), self.nvars());
        let env = at.env(body, nvars);
        let level = body[d as int];
        let frame = after.stack@[d as int];
        let (_, rest) = machine::sought(env, level, at.open->0)->Ok_0;
        let reached = Place { open: Some(seq![fact] + rest), ..at };
        assert((seq![fact] + rest)[0] == fact);
        assert((seq![fact] + rest).skip(1) =~= rest);
        self.store.facts_are_sorted();
        machine::lemma_entered(reached, facts, body, nvars);
        machine::lemma_agrees_entered(body, nvars, at.stack, self.state@, self.reached@, fact);
        lemma_offsets_kept(
            self.stack@[d as int].field_offsets@,
            frame.field_offsets@,
            level,
            self.state@,
            env,
        );
        self.lemma_rows_left(rest);
        lemma_frames_entered(self.stack@, self.store, body, nvars, at.stack, d, frame);
        assert(after.place() =~= reached.entered());
    }

    /// What is left after a search is whole rows too.
    proof fn lemma_rows_left(self, rest: Seq<Fact>)
        requires
            self.wf(),
            self.depth < self.stack@.len(),
            self.stack@[self.depth as int].scan is Some,
            machine::sought(
                self.state@,
                self.body()[self.depth as int],
                self.stack@[self.depth as int].scan->0.remaining(),
            ) matches Ok((_, left)) && left == rest,
        ensures
            whole_rows(rest),
    {
        reveal(Executor::wf);
        reveal(Executor::pending);
        reveal(Executor::faithful);
        lemma_sought_rows(
            self.state@,
            self.body()[self.depth as int],
            self.stack@[self.depth as int].scan->0.remaining(),
        );
    }

    /// Move the level under way on by one row it admits: into the level inside, or,
    /// where it has none left, back to the level outside. `false` once there is no
    /// level outside.
    fn step_level(&mut self, token: Option<&CancellationToken>) -> (more: Result<
        bool,
        ApertureError,
    >)
        requires
            old(self).wf(),
            old(self).depth < old(self).stack@.len(),
            old(self).stack@[old(self).depth as int].scan is Some,
        ensures
            final(self).source() == old(self).source(),
            final(self).program() == old(self).program(),
            match more {
                Ok(true) => {
                    &&& final(self).wf()
                    &&& old(self).faithful() ==> final(self).faithful()
                    &&& final(self).pending().rows == old(self).pending().rows
                    &&& final(self).pending().error == old(self).pending().error
                    &&& final(self).pending().steps < old(self).pending().steps
                },
                Ok(false) => {
                    &&& final(self).wf()
                    &&& final(self).faithful()
                    &&& final(self).place() == Place::start()
                    &&& old(self).pending().rows.len() == 0
                    &&& old(self).pending().error is None
                },
                Err(e) => old(self).fails_with(e) || old(self).from_outside(e, token is Some),
            },
    {
        let d: usize = self.depth;
        proof {
            self.lemma_ready();
            self.lemma_search_ends();
        }
        let found = self.stack[d].seek_on(&self.state, &self.plan.body[d], token);
        match found {
            Err(e) => Err(e),
            Ok(None) => {
                self.stack[d].scan = None;
                self.stack[d].current = None;
                proof {
                    assert(self.stack@ =~= old(self).stack@.update(d as int, self.stack@[d as int]));
                }
                if d == 0 {
                    proof {
                        old(self).lemma_finished(*self);
                    }
                    return Ok(false);
                }
                self.depth = d - 1;
                proof {
                    old(self).lemma_backed_out(*self);
                }
                Ok(true)
            },
            Ok(Some(register)) => {
                match self.state.bind(&self.plan.body[d].binds, &register) {
                    Err(e) => {
                        proof {
                            old(self).lemma_cannot_bind(register.fact());
                        }
                        return Err(e);
                    },
                    Ok(_) => {},
                }
                proof {
                    self.reached@ = if self.reached@ > d {
                        self.reached@
                    } else {
                        (d + 1) as nat
                    };
                }
                self.depth = d + 1;
                proof {
                    old(self).lemma_moved_in(*self, register.fact());
                }
                Ok(true)
            },
        }
    }

    /// A row that cannot be bound ends the run.
    proof fn lemma_cannot_bind(self, fact: Fact)
        requires
            self.wf(),
            self.depth < self.stack@.len(),
            self.stack@[self.depth as int].scan is Some,
            machine::sought(
                self.state@,
                self.body()[self.depth as int],
                self.stack@[self.depth as int].scan->0.remaining(),
            ) matches Ok((Some(found), _)) && found == fact,
            machine::stray(self.body()[self.depth as int].binds@, self.nvars(), 0) is Some,
        ensures
            self.fails_with(
                ApertureError::AddressOutOfBounds(
                    machine::stray(self.body()[self.depth as int].binds@, self.nvars(), 0)->0,
                ),
            ),
    {
        reveal(Executor::wf);
        reveal(Executor::pending);
        reveal(Executor::faithful);
        self.lemma_searched();
        self.lemma_ready();
        let at = self.place();
        let (body, nvars) = (self.body(), self.nvars());
        let (_, rest) = machine::sought(
            at.env(body, nvars),
            body[self.depth as int],
            at.open->0,
        )->Ok_0;
        assert((seq![fact] + rest)[0] == fact);
    }

    /// Run to the next whole row. `false` once there is none; the run then begins anew.
    fn advance(&mut self, token: Option<&CancellationToken>) -> (more: Result<
        bool,
        ApertureError,
    >)
        requires
            old(self).wf(),
        ensures
            final(self).source() == old(self).source(),
            final(self).program() == old(self).program(),
            match more {
                Ok(true) => {
                    &&& final(self).wf()
                    &&& old(self).faithful() ==> final(self).faithful()
                    &&& final(self).on_a_row()
                    &&& final(self).pending().rows == old(self).pending().rows
                    &&& final(self).pending().error == old(self).pending().error
                    &&& final(self).pending().steps <= old(self).pending().steps
                },
                Ok(false) => {
                    &&& final(self).wf()
                    &&& final(self).faithful()
                    &&& final(self).place() == Place::start()
                    &&& old(self).pending().rows.len() == 0
                    &&& old(self).pending().error is None
                },
                Err(e) => old(self).fails_with(e) || old(self).from_outside(e, token is Some),
            },
    {
        let n: usize = self.plan.body.len();
        loop
            invariant
                self.wf(),
                n == self.body().len(),
                self.source() == old(self).source(),
                self.program() == old(self).program(),
                self.pending().rows == old(self).pending().rows,
                self.pending().error == old(self).pending().error,
                self.pending().steps <= old(self).pending().steps,
                old(self).faithful() ==> self.faithful(),
            decreases self.pending().steps,
        {
            proof {
                self.lemma_depth();
            }
            if self.depth == n {
                return Ok(true);
            }
            if self.stack[self.depth].scan.is_none() {
                match self.open_level() {
                    Ok(_) => {},
                    Err(e) => return Err(e),
                }
            }
            proof {
                self.lemma_depth();
            }
            match self.step_level(token) {
                Ok(true) => {},
                Ok(false) => return Ok(false),
                Err(e) => return Err(e),
            }
        }
    }

    /// Every level is on a row.
    pub closed spec fn on_a_row(self) -> bool {
        self.depth == self.plan.body@.len()
    }

    proof fn lemma_depth(&self)
        requires
            self.wf(),
        ensures
            self.depth <= self.stack@.len(),
            self.stack@.len() == self.body().len(),
            self.state.wf(),
    {
        reveal(Executor::wf);
    }

    /// On a whole row, the registers are the row's.
    proof fn lemma_row(&self)
        requires
            self.wf(),
            self.on_a_row(),
        ensures
            self.state.wf(),
            self.pending().rows.len() > 0,
            self.state@ == self.pending().rows[0],
    {
        reveal(Executor::wf);
        reveal(Executor::pending);
        reveal(Executor::faithful);
        let at = self.place();
        let (body, nvars) = (self.body(), self.nvars());
        let env = at.env(body, nvars);
        machine::lemma_env_len(body, nvars, at.stack, at.depth());
        assert forall|r: int| 0 <= r < nvars implies self.state@[r] == #[trigger] env[r] by {
            if env[r] is None && self.state@[r] is Some {
                assert(machine::bound_between(
                    body,
                    Address(r as usize),
                    at.stack.len(),
                    self.reached@,
                ));
            }
        }
        assert(self.state@ =~= env);
    }

    /// Past a whole row, the innermost level goes on.
    proof fn lemma_yielded(self, after: Self)
        requires
            self.wf(),
            self.on_a_row(),
            self.depth > 0,
            after.store == self.store,
            after.plan == self.plan,
            after.state == self.state,
            after.reached == self.reached,
            after.stack == self.stack,
            after.depth + 1 == self.depth,
        ensures
            after.wf(),
            self.faithful() ==> after.faithful(),
            after.pending().rows == self.pending().rows.skip(1),
            after.pending().error == self.pending().error,
            after.pending().steps < self.pending().steps,
            after.cursor_rows() == self.place().stack,
            self.faithful() ==> machine::stopped(
                after.place(),
                self.source().facts(),
                self.body(),
                self.nvars(),
                after.cursor_rows(),
            ),
    {
        reveal(Executor::wf);
        reveal(Executor::pending);
        reveal(Executor::faithful);
        let at = self.place();
        let (facts, body, nvars) = (self.store.facts(), self.body(), self.nvars());
        machine::lemma_yielded(at, facts, body, nvars);
        machine::lemma_agrees_left(body, nvars, at.stack, self.state@, self.reached@);
        lemma_frames_left(self.stack@, self.store, body, nvars, at.stack, self.depth as nat);
        assert(after.place() =~= at.left());
        assert(after.cursor_rows() =~= at.stack);
        if self.faithful() {
            machine::lemma_stopped(at, facts, body, nvars);
        }
    }

    /// The rows a cursor taken here holds: the outer levels' and the one the level under
    /// way was on last.
    pub open spec fn cursor_rows(self) -> Seq<Fact> {
        match self.place().last {
            Some(fact) => self.place().stack.push(fact),
            None => self.place().stack,
        }
    }

    /// Where to take the run up again: the row each level is on.
    pub fn build_cursor(&self) -> (cursor: Cursor)
        requires
            self.wf(),
        ensures
            cursor@ == self.cursor_rows(),
    {
        proof {
            reveal(Executor::wf);
        }
        let mut rows: Vec<Register> = Vec::new();
        let mut i: usize = 0;
        while i < self.stack.len()
            invariant
                self.wf(),
                i <= self.stack@.len(),
                registers_of(rows@) == self.cursor_rows().take(
                    if i < self.cursor_rows().len() {
                        i as int
                    } else {
                        self.cursor_rows().len() as int
                    },
                ),
            decreases self.stack@.len() - i,
        {
            proof {
                reveal(Executor::wf);
            }
            let ghost before = registers_of(rows@);
            if let Some(row) = &self.stack[i].current {
                rows.push(row.to_detached());
                proof {
                    assert(registers_of(rows@) =~= before.push(row.fact()));
                    assert(self.cursor_rows()[i as int] == row.fact());
                    assert(registers_of(rows@) =~= self.cursor_rows().take(i + 1));
                }
            }
            i += 1;
        }
        proof {
            assert(self.cursor_rows().take(self.cursor_rows().len() as int)
                =~= self.cursor_rows());
        }
        Cursor(rows)
    }
}

/// The facts some registers hold.
pub open spec fn registers_of(rows: Seq<Register>) -> Seq<Fact> {
    rows.map_values(|row: Register| row.fact())
}

/// Where a run was stopped: the row each level was on. Bytes and ids only, so that it
/// outlives the store it was taken from.
pub struct Cursor(Vec<Register>);

impl View for Cursor {
    type V = Seq<Fact>;

    closed spec fn view(&self) -> Seq<Fact> {
        registers_of(self.0@)
    }
}

/// What is left after a search is some of what was left before it.
proof fn lemma_sought_rows(env: Seq<Option<Fact>>, level: Generator, left: Seq<Fact>)
    requires
        whole_rows(left),
    ensures
        machine::sought(env, level, left) matches Ok((_, rest)) ==> whole_rows(rest),
    decreases left.len(),
{
    if left.len() > 0 {
        let rest = left.skip(1);
        assert forall|i: int| 0 <= i < rest.len() implies (#[trigger] rest[i]).row.len() >= 4 by {
            assert(rest[i] == left[i + 1]);
        }
        lemma_sought_rows(env, level, rest);
    }
}

// ---- consuming rows ---------------------------------------------------------

/// A row of the answer, on loan from the executor.
pub struct Row<'a, S: FactStore> {
    pub store: &'a S,
    pub state: &'a MachineState,
    pub plan: &'a Plan,
}

impl<'a, S: FactStore> Row<'a, S> {
    /// Whether this is the row of `store` and `plan` whose registers are `env`.
    pub open spec fn shows(self, store: S, plan: Plan, env: Seq<Option<Fact>>) -> bool {
        &&& *self.store == store
        &&& *self.plan == plan
        &&& self.state@ == env
        &&& self.state.wf()
    }

    /// The row as the plan's head asks for it.
    pub fn to_value(&self, interner: &LocalInterner) -> (value: Result<Value, ApertureError>)
        requires
            self.state.wf(),
        ensures
            projects(
                *self.store,
                value,
                projected(*self.store, interner@, self.state@, self.plan.head.shape()),
            ),
    {
        project(interner, &self.plan.head, self.state, self.store)
    }
}

/// What a consumer of rows says: go on, or stop here.
pub enum Stream<A> {
    Continue(A),
    Suspend(A),
}

/// How an enumeration ended: with every row consumed, or stopped, with where to take it
/// up again.
pub enum Iteratee<A> {
    Done(A),
    Suspended(A, Cursor),
}

/// Whether `step`, handed `acc` and the row whose registers are `env`, may answer
/// `answer`.
pub open spec fn may_answer<
    A,
    S: FactStore,
    F: Fn(A, Row<'_, S>) -> Result<Stream<A>, ApertureError>,
>(
    step: F,
    acc: A,
    store: S,
    plan: Plan,
    env: Seq<Option<Fact>>,
    answer: Result<Stream<A>, ApertureError>,
) -> bool {
    exists|row: Row<'_, S>|
        row.shows(store, plan, env) && #[trigger] call_ensures(step, (acc, row), answer)
}

/// Whether `step` may have folded the first rows into `accs`, going on after each.
pub open spec fn folded<
    A,
    S: FactStore,
    F: Fn(A, Row<'_, S>) -> Result<Stream<A>, ApertureError>,
>(step: F, store: S, plan: Plan, rows: Seq<Seq<Option<Fact>>>, accs: Seq<A>) -> bool {
    &&& 0 < accs.len() <= rows.len() + 1
    &&& forall|i: int|
        0 <= i < accs.len() - 1 ==> #[trigger] may_answer(
            step,
            accs[i],
            store,
            plan,
            rows[i],
            Ok(Stream::Continue(accs[i + 1])),
        )
}

/// What an enumeration comes to: the rows pending are folded in order; it ends with the
/// last of them, or where the consumer stops it, or where the run fails. A plan without
/// levels has one row, and nothing to take up again after it.
pub open spec fn enumerated<
    A,
    S: FactStore,
    F: Fn(A, Row<'_, S>) -> Result<Stream<A>, ApertureError>,
>(
    before: Executor<S>,
    after: Executor<S>,
    step: F,
    accs: Seq<A>,
    ended: Result<Iteratee<A>, ApertureError>,
) -> bool {
    let (store, plan) = (before.source(), before.program());
    let rows = before.pending().rows;
    let k = accs.len() - 1;
    &&& folded(step, store, plan, rows, accs)
    &&& match ended {
        Ok(Iteratee::Done(acc)) => {
            &&& after.wf()
            &&& after.faithful()
            &&& after.place() == Place::start()
            &&& before.pending().error is None
            &&& {
                ||| k == rows.len() && acc == accs[k]
                ||| before.body().len() == 0 && k < rows.len() && may_answer(
                    step,
                    accs[k],
                    store,
                    plan,
                    rows[k],
                    Ok(Stream::Suspend(acc)),
                )
            }
        },
        Ok(Iteratee::Suspended(acc, cursor)) => {
            &&& after.wf()
            &&& k < rows.len()
            &&& may_answer(step, accs[k], store, plan, rows[k], Ok(Stream::Suspend(acc)))
            &&& after.pending().rows == rows.skip(k + 1)
            &&& after.pending().error == before.pending().error
            &&& before.faithful() ==> machine::stopped(
                after.place(),
                store.facts(),
                plan.body@,
                plan.nvars as nat,
                cursor@,
            )
        },
        Err(e) => {
            ||| k == rows.len() && before.pending().error == Some(e)
            ||| k < rows.len() && may_answer(step, accs[k], store, plan, rows[k], Err(e))
            ||| before.from_outside(e, true)
        },
    }
}

impl<S: FactStore> Executor<S> {
    /// Fold the rows still to come with `step`, until they are used up or `step` stops.
    pub fn enumerate<A, F: Fn(A, Row<'_, S>) -> Result<Stream<A>, ApertureError>>(
        &mut self,
        init: A,
        step: F,
        cancellation_token: &CancellationToken,
    ) -> (ended: Result<Iteratee<A>, ApertureError>)
        requires
            old(self).wf(),
            forall|acc: A, row: Row<'_, S>|
                row.state.wf() ==> #[trigger] call_requires(step, (acc, row)),
        ensures
            final(self).source() == old(self).source(),
            final(self).program() == old(self).program(),
            exists|accs: Seq<A>|
                accs.len() > 0 && accs[0] == init && #[trigger] enumerated(
                    *old(self),
                    *final(self),
                    step,
                    accs,
                    ended,
                ),
    {
        let n: usize = self.plan.body.len();
        let ghost rows = self.pending().rows;
        let ghost error = self.pending().error;
        let ghost mut accs: Seq<A> = seq![init];
        let mut acc: A = init;
        proof {
            assert(rows.skip(0) =~= rows);
        }
        loop
            invariant
                self.wf(),
                n == self.body().len(),
                self.source() == old(self).source(),
                self.program() == old(self).program(),
                rows == old(self).pending().rows,
                error == old(self).pending().error,
                forall|a: A, row: Row<'_, S>|
                    row.state.wf() ==> #[trigger] call_requires(step, (a, row)),
                accs.len() > 0,
                accs[0] == init,
                accs[accs.len() - 1] == acc,
                folded(step, self.source(), self.program(), rows, accs),
                self.pending().rows == rows.skip(accs.len() - 1),
                self.pending().error == error,
                old(self).faithful() ==> self.faithful(),
            decreases self.pending().steps,
        {
            let more: bool = match self.advance(Some(cancellation_token)) {
                Ok(more) => more,
                Err(e) => {
                    let ended = Err(e);
                    proof {
                        assert(enumerated(*old(self), *self, step, accs, ended));
                    }
                    return ended;
                },
            };
            if !more {
                let ended = Ok(Iteratee::Done(acc));
                proof {
                    assert(enumerated(*old(self), *self, step, accs, ended));
                }
                return ended;
            }
            proof {
                self.lemma_row();
                self.lemma_depth();
            }
            let ghost here = *self;
            let row = Row { store: &self.store, state: &self.state, plan: &self.plan };
            let ghost shown = row;
            let answer = step(acc, row);
            proof {
                assert(shown.shows(self.source(), self.program(), rows[accs.len() - 1]));
                assert(call_ensures(step, (accs[accs.len() - 1], shown), answer));
                assert(may_answer(
                    step,
                    accs[accs.len() - 1],
                    self.source(),
                    self.program(),
                    rows[accs.len() - 1],
                    answer,
                ));
            }
            match answer {
                Err(e) => {
                    let ended = Err(e);
                    proof {
                        assert(enumerated(*old(self), *self, step, accs, ended));
                    }
                    return ended;
                },
                Ok(Stream::Continue(next)) => {
                    proof {
                        let before = accs;
                        accs = accs.push(next);
                        assert forall|i: int| 0 <= i < accs.len() - 1 implies #[trigger] may_answer(
                            step,
                            accs[i],
                            self.source(),
                            self.program(),
                            rows[i],
                            Ok(Stream::Continue(accs[i + 1])),
                        ) by {
                            if i < before.len() - 1 {
                                assert(may_answer(
                                    step,
                                    before[i],
                                    self.source(),
                                    self.program(),
                                    rows[i],
                                    Ok(Stream::Continue(before[i + 1])),
                                ));
                                assert(accs[i] == before[i] && accs[i + 1] == before[i + 1]);
                            }
                        }
                    }
                    acc = next;
                    if n == 0 {
                        let ended = Ok(Iteratee::Done(acc));
                        proof {
                            self.lemma_no_levels();
                            assert(enumerated(*old(self), *self, step, accs, ended));
                        }
                        return ended;
                    }
                    self.depth = self.depth - 1;
                    proof {
                        here.lemma_yielded(*self);
                        assert(rows.skip(accs.len() - 2).skip(1) =~= rows.skip(
                            accs.len() - 1,
                        ));
                    }
                },
                Ok(Stream::Suspend(next)) => {
                    if n == 0 {
                        let ended = Ok(Iteratee::Done(next));
                        proof {
                            self.lemma_no_levels();
                            assert(enumerated(*old(self), *self, step, accs, ended));
                        }
                        return ended;
                    }
                    self.depth = self.depth - 1;
                    proof {
                        here.lemma_yielded(*self);
                        assert(rows.skip(accs.len() - 1).skip(1) =~= rows.skip(
                            accs.len() as int,
                        ));
                    }
                    let ended = Ok(Iteratee::Suspended(next, self.build_cursor()));
                    proof {
                        assert(enumerated(*old(self), *self, step, accs, ended));
                    }
                    return ended;
                },
            }
        }
    }

    /// A plan without levels has one row, and is where it starts.
    proof fn lemma_no_levels(&self)
        requires
            self.wf(),
            self.body().len() == 0,
        ensures
            self.place() == Place::start(),
            self.faithful(),
            self.pending().rows.len() == 1,
            self.pending().error is None,
    {
        reveal(Executor::wf);
        reveal(Executor::pending);
        reveal(Executor::faithful);
        assert(self.place() =~= Place::start());
    }
}

// ---- taking a run up again --------------------------------------------------

/// Every register the plan's levels bind is one of its registers.
pub open spec fn binds_registers(plan: Plan) -> bool {
    forall|i: int|
        0 <= i < plan.body@.len() ==> machine::stray(
            (#[trigger] plan.body@[i]).binds@,
            plan.nvars as nat,
            0,
        ) is None
}

impl<S: FactStore> Executor<S> {
    /// Open the level under way from a saved row on.
    fn reopen_level(&mut self, lo: &[u8]) -> (opened: Result<(), ApertureError>)
        requires
            old(self).wf(),
            old(self).depth < old(self).stack@.len(),
            old(self).stack@[old(self).depth as int].scan is None,
        ensures
            final(self).source() == old(self).source(),
            final(self).program() == old(self).program(),
            ({
                let at = old(self).place();
                let (body, nvars) = (old(self).body(), old(self).nvars());
                match (opened, machine::prefix(at.env(body, nvars), body[at.depth() as int])) {
                    (Ok(_), Ok(p)) => {
                        &&& lo@.len() >= 4
                        &&& final(self).wf()
                        &&& final(self).depth == old(self).depth
                        &&& final(self).stack@[final(self).depth as int].scan is Some
                        &&& final(self).place() == at.opened(
                            plan::between(
                                old(self).source().facts(),
                                lo@,
                                crate::bytes::successor(p),
                            ),
                        )
                    },
                    (Err(e), Err(expected)) if e == expected => true,
                    (Err(e), found) => old(self).source().may_fail() || (found is Ok && lo@.len()
                        < 4 && e == ApertureError::Store(
                        StoreError::ShortScanBound { len: lo@.len() as usize, expected: 4 },
                    )),
                    _ => false,
                }
            }),
    {
        proof {
            reveal(Executor::wf);
        }
        let d: usize = self.depth;
        let ghost at = self.place();
        let ghost env = at.env(self.body(), self.nvars());
        let ghost frames = self.stack@;
        proof {
            self.lemma_ready();
            machine::lemma_prefix_agrees(self.state@, env, self.body()[d as int]);
        }
        match self.stack[d].open(&self.store, &self.plan.body[d], &self.state, Some(lo)) {
            Err(e) => Err(e),
            Ok(_) => {
                proof {
                    let p = machine::prefix(env, self.body()[d as int])->Ok_0;
                    let hi = crate::bytes::successor(p);
                    let all = plan::between(self.store.facts(), lo@, hi);
                    machine::lemma_opened_over(
                        at,
                        self.store.facts(),
                        self.body(),
                        self.nvars(),
                        lo@,
                        hi,
                    );
                    assert(self.place() =~= at.opened(all));
                    assert(whole_rows(all)) by {
                        assert forall|i: int| 0 <= i < all.len() implies (
                        #[trigger] all[i]).row.len() >= 4 by {
                            assert(crate::bytes::begins_with(all[i].row, lo@.take(4)));
                        }
                    }
                    let frame = self.stack@[d as int];
                    assert(offsets_fit(frame.field_offsets@, env));
                    lemma_frames_changed(
                        frames,
                        self.store,
                        self.body(),
                        self.nvars(),
                        at.stack,
                        d as nat,
                        frame,
                    );
                    assert(self.stack@ =~= frames.update(d as int, frame));
                }
                Ok(())
            },
        }
    }

    /// Go back into the level inside, on the saved row: the first the level admits from
    /// there on, which has to be the fact that was saved.
    fn reenter_level(&mut self, id: FactId) -> (entered: Result<(), ApertureError>)
        requires
            old(self).wf(),
            old(self).depth < old(self).stack@.len(),
            old(self).stack@[old(self).depth as int].scan is Some,
            machine::stray(
                old(self).body()[old(self).depth as int].binds@,
                old(self).nvars(),
                0,
            ) is None,
        ensures
            final(self).source() == old(self).source(),
            final(self).program() == old(self).program(),
            ({
                let at = old(self).place();
                let (body, nvars) = (old(self).body(), old(self).nvars());
                match (
                    entered,
                    machine::sought(at.env(body, nvars), body[at.depth() as int], at.open->0),
                ) {
                    (Ok(_), Ok((Some(fact), rest))) => {
                        &&& fact.id == id
                        &&& final(self).wf()
                        &&& final(self).depth == old(self).depth + 1
                        &&& final(self).place() == (Place {
                            stack: at.stack.push(fact),
                            rest: at.rest.push(rest),
                            open: None,
                            last: None,
                        })
                    },
                    (Err(e), Err(expected)) if e == expected => true,
                    (Err(e), found) => old(self).source().may_fail() || (e is BadResumeKey && (
                    found matches Ok((row, _)) && (row matches Some(fact) ==> fact.id != id))),
                    _ => false,
                }
            }),
    {
        let d: usize = self.depth;
        proof {
            self.lemma_ready();
            self.lemma_search_agrees();
        }
        let found = self.stack[d].seek_on(&self.state, &self.plan.body[d], None);
        let register = match found {
            Err(e) => return Err(e),
            Ok(None) => return Err(ApertureError::BadResumeKey),
            Ok(Some(register)) => register,
        };
        if register.fact_id != id {
            return Err(ApertureError::BadResumeKey);
        }
        match self.state.bind(&self.plan.body[d].binds, &register) {
            Err(e) => return Err(e),
            Ok(_) => {},
        }
        proof {
            self.reached@ = if self.reached@ > d {
                self.reached@
            } else {
                (d + 1) as nat
            };
        }
        self.depth = d + 1;
        proof {
            old(self).lemma_moved_in(*self, register.fact());
        }
        Ok(())
    }

    proof fn lemma_search_agrees(self)
        requires
            self.wf(),
            self.depth < self.stack@.len(),
            self.stack@[self.depth as int].scan is Some,
        ensures
            ({
                let at = self.place();
                let level = self.body()[self.depth as int];
                let left = self.stack@[self.depth as int].scan->0.remaining();
                &&& at.open == Some(left)
                &&& at.depth() == self.depth
                &&& machine::sought(at.env(self.body(), self.nvars()), level, left)
                    == machine::sought(self.state@, level, left)
            }),
    {
        self.lemma_searched();
    }

    /// The run as it stands once the innermost level is back outside.
    proof fn lemma_stepped_back(self, after: Self)
        requires
            self.wf(),
            0 < self.depth <= self.stack@.len(),
            self.place().open is None,
            after.store == self.store,
            after.plan == self.plan,
            after.state == self.state,
            after.reached == self.reached,
            after.stack == self.stack,
            after.depth + 1 == self.depth,
        ensures
            after.wf(),
            after.place() == self.place().left(),
    {
        reveal(Executor::wf);
        let at = self.place();
        let (facts, body, nvars) = (self.store.facts(), self.body(), self.nvars());
        machine::lemma_left(at, facts, body, nvars);
        machine::lemma_agrees_left(body, nvars, at.stack, self.state@, self.reached@);
        lemma_frames_left(self.stack@, self.store, body, nvars, at.stack, self.depth as nat);
        assert(after.place() =~= at.left());
    }

    /// Take a run up again where it was stopped. The cursor is not trusted: one that
    /// names more levels than the plan has, or a row that is not there, is refused.
    pub fn resume(store: S, plan: Plan, cursor: Cursor) -> (taken_up: Result<Self, ApertureError>)
        requires
            machine::binds_once(plan.body@),
            binds_registers(plan),
        ensures
            ({
                let (body, nvars) = (plan.body@, plan.nvars as nat);
                match taken_up {
                    Ok(executor) => {
                        &&& cursor@.len() <= body.len()
                        &&& executor.wf()
                        &&& executor.source() == store
                        &&& executor.program() == plan
                        &&& machine::resumed(
                            store.facts(),
                            body,
                            nvars,
                            cursor@,
                            cursor@.len(),
                            true,
                        )
                            matches Ok((stack, rest)) && executor.place()
                            == machine::resumption(stack, rest)
                    },
                    Err(e) => {
                        ||| cursor@.len() > body.len() && e == ApertureError::CursorPlanMismatch {
                            cursor: cursor@.len() as usize,
                            plan: body.len() as usize,
                        }
                        ||| cursor@.len() <= body.len() && machine::resumed(
                            store.facts(),
                            body,
                            nvars,
                            cursor@,
                            cursor@.len(),
                            true,
                        ) == Err::<(Seq<Fact>, Seq<Seq<Fact>>), ApertureError>(e)
                        ||| cursor@.len() <= body.len() && store.may_fail()
                    },
                }
            }),
    {
        let rows: Vec<Register> = cursor.0;
        let n: usize = plan.body.len();
        if rows.len() > n {
            return Err(ApertureError::CursorPlanMismatch { cursor: rows.len(), plan: n });
        }
        let ghost saved = registers_of(rows@);
        let mut executor = Executor::new(store, plan);
        let ghost mut stack: Seq<Fact> = Seq::empty();
        let ghost mut rest: Seq<Seq<Fact>> = Seq::empty();
        let mut level: usize = 0;
        proof {
            executor.lemma_depth();
            assert(executor.place().stack == stack);
            assert(executor.depth == 0);
        }
        while level < rows.len()
            invariant
                executor.wf(),
                executor.source() == store,
                executor.program() == plan,
                n == plan.body@.len(),
                rows@.len() <= n,
                saved == registers_of(rows@),
                cursor@ == saved,
                binds_registers(plan),
                level <= rows@.len(),
                executor.depth == level,
                executor.place() == (Place { stack, rest, open: None, last: None }),
                machine::resumed(
                    store.facts(),
                    plan.body@,
                    plan.nvars as nat,
                    saved,
                    level as nat,
                    true,
                ) == Ok::<(Seq<Fact>, Seq<Seq<Fact>>), ApertureError>((stack, rest)),
            decreases rows@.len() - level,
        {
            proof {
                executor.lemma_depth();
                assert(machine::stray(
                    plan.body@[level as int].binds@,
                    plan.nvars as nat,
                    0,
                ) is None);
                assert(saved[level as int] == rows@[level as int].fact());
            }
            let row: &Register = &rows[level];
            let reopened = executor.reopen_level(as_bytes(&row.bytes));
            match reopened {
                Err(e) => {
                    proof {
                        machine::lemma_resumed_fails(
                            store.facts(),
                            plan.body@,
                            plan.nvars as nat,
                            saved,
                            (level + 1) as nat,
                            saved.len(),
                            true,
                        );
                    }
                    return Err(e);
                },
                Ok(_) => {},
            }
            proof {
                executor.lemma_depth();
            }
            let entered = executor.reenter_level(row.fact_id);
            match entered {
                Err(e) => {
                    proof {
                        machine::lemma_resumed_fails(
                            store.facts(),
                            plan.body@,
                            plan.nvars as nat,
                            saved,
                            (level + 1) as nat,
                            saved.len(),
                            true,
                        );
                    }
                    return Err(e);
                },
                Ok(_) => {},
            }
            proof {
                stack = executor.place().stack;
                rest = executor.place().rest;
            }
            level += 1;
        }
        if rows.len() == 0 {
            return Ok(executor);
        }
        let ghost before = executor;
        executor.depth = executor.depth - 1;
        proof {
            before.lemma_depth();
            before.lemma_stepped_back(executor);
        }
        Ok(executor)
    }
}

} // verus!
