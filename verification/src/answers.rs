//! What a compiled query answers: its steps as nested loops over a store, with the
//! alternatives of a level one after another, tests that let a registers' row through or
//! not, and references followed to the fact they name.
use byteview::ByteView;

use vstd::prelude::*;

use crate::blob;
use crate::blob::{as_bytes, blob};
use crate::bytes::{append_bytes, same_bytes, starts_with, strinc};
use crate::error::{ApertureError, StoreCodecError, StoreError};
use crate::exec;
use crate::fixtures;
use crate::iter;
use crate::iter::{path_value, project, Address, FieldOffsets, MachineState, Register};
use crate::machine;
use crate::plan;
use crate::plan::{
    Access, Fact, FactId, FactStore, FieldPath, Projection, Residual, ResidualOp, RowScan, SeekKey,
    SeekKeyPart,
};
use crate::program;
use crate::program::{Level, Program, Source, Step, Test};
use crate::schema::{LocalInterner, Names, PredicateId, PredicateTy};
use crate::tuple;
use crate::tuple::{decode_typed, put_big_endian, put_fact_id, Datum, Value};

pub mod laws;

verus! {

// ---- what a source offers ---------------------------------------------------

/// What every row of a seek begins with: its predicate, then its key's bytes.
pub open spec fn access_prefix(env: Seq<Option<Fact>>, access: Access) -> Result<
    Seq<u8>,
    ApertureError,
> {
    let predicate = tuple::big_endian(access.predicate_id.0 as nat, 4);
    match access.seek_key {
        SeekKey::Prefix(bytes) => Ok(predicate + bytes@),
        SeekKey::Composite(parts) => match machine::parts_bytes(env, parts@, parts@.len()) {
            Ok(bytes) => Ok(predicate + bytes),
            Err(e) => Err(e),
        },
    }
}

/// The fact some bytes name, where they are a reference to a fact of `predicate`. A
/// reference to another predicate is reported rather than followed: its fact would be
/// read against a layout it does not have.
pub open spec fn named_by(bytes: Seq<u8>, predicate: PredicateId) -> Result<
    FactId,
    ApertureError,
> {
    let nameless = Names { schema: Seq::empty(), local: Seq::empty() };
    match tuple::decoded_value(nameless, bytes, PredicateTy::Fact(predicate)) {
        Ok(value) => Ok(value->FactRef_0),
        Err(StoreCodecError::FactRefPredicate { expected, found }) => Err(
            ApertureError::ReferenceCrossesPredicate {
                expected: PredicateId(expected),
                found: PredicateId(found),
            },
        ),
        Err(e) => Err(ApertureError::Decode(e)),
    }
}

/// The fact a field of a register's row names.
pub open spec fn referenced(
    env: Seq<Option<Fact>>,
    reference: Address,
    path: FieldPath,
    predicate: PredicateId,
) -> Result<FactId, ApertureError> {
    match machine::held(env, reference) {
        Ok(fact) => match tuple::path_bytes(fact.key(), path@) {
            Ok(bytes) => named_by(bytes, predicate),
            Err(e) => Err(e),
        },
        Err(e) => Err(e),
    }
}

/// The facts a source ranges over before its filters: those its seek finds, in order, or
/// the one a reference names.
pub open spec fn candidates<S: FactStore>(
    store: S,
    env: Seq<Option<Fact>>,
    source: Source,
) -> Result<Seq<Fact>, ApertureError> {
    match source {
        Source::Seek { access, .. } => match access_prefix(env, access) {
            Ok(prefix) => Ok(machine::matching(store.facts(), prefix)),
            Err(e) => Err(e),
        },
        Source::Fetch { reference, path, predicate, .. } => match referenced(
            env,
            reference,
            path,
            predicate,
        ) {
            Ok(id) => match store.entity(id) {
                Some((key, _)) => Ok(
                    seq![Fact { row: tuple::big_endian(predicate.0 as nat, 4) + key, id }],
                ),
                None => Err(ApertureError::Store(StoreError::DanglingFactId(id))),
            },
            Err(e) => Err(e),
        },
    }
}

/// The rows a source comes to, in order, and the error they end in, if they end in one.
#[verifier::ext_equal]
pub struct Offer {
    pub facts: Seq<Fact>,
    pub error: Option<ApertureError>,
}

/// The facts that pass some filters, up to the first that cannot be read.
#[verifier::opaque]
pub open spec fn admitted(
    env: Seq<Option<Fact>>,
    filters: Seq<Residual>,
    left: Seq<Fact>,
) -> Offer
    decreases left.len(),
{
    if left.len() == 0 {
        Offer { facts: Seq::empty(), error: None }
    } else {
        let rest = admitted(env, filters, left.skip(1));
        match machine::passes(env, filters, left[0], filters.len()) {
            Err(e) => Offer { facts: Seq::empty(), error: Some(e) },
            Ok(false) => rest,
            Ok(true) => Offer { facts: seq![left[0]] + rest.facts, error: rest.error },
        }
    }
}

/// What a source offers.
#[verifier::opaque]
pub open spec fn offered<S: FactStore>(store: S, env: Seq<Option<Fact>>, source: Source) -> Offer {
    match candidates(store, env, source) {
        Ok(left) => admitted(env, source.filters()@, left),
        Err(e) => Offer { facts: Seq::empty(), error: Some(e) },
    }
}

/// Whether a source has no row.
pub open spec fn empty<S: FactStore>(store: S, env: Seq<Option<Fact>>, source: Source) -> Result<
    bool,
    ApertureError,
> {
    let offer = offered(store, env, source);
    if offer.facts.len() > 0 {
        Ok(false)
    } else {
        match offer.error {
            Some(e) => Err(e),
            None => Ok(true),
        }
    }
}

/// Whether none of some sources has a row. The first that has one, or that cannot be
/// read, decides.
pub open spec fn absent<S: FactStore>(
    store: S,
    env: Seq<Option<Fact>>,
    sources: Seq<Source>,
) -> Result<bool, ApertureError>
    decreases sources.len(),
{
    if sources.len() == 0 {
        Ok(true)
    } else {
        match empty(store, env, sources[0]) {
            Ok(true) => absent(store, env, sources.skip(1)),
            other => other,
        }
    }
}

// ---- what a body answers ----------------------------------------------------

/// The registers of each row, in order, and the error that ends them, if one does.
#[verifier::ext_equal]
pub struct Answers {
    pub rows: Seq<Seq<Option<Fact>>>,
    pub error: Option<ApertureError>,
}

impl Answers {
    pub open spec fn nothing() -> Answers {
        Answers { rows: Seq::empty(), error: None }
    }

    pub open spec fn one(env: Seq<Option<Fact>>) -> Answers {
        Answers { rows: seq![env], error: None }
    }

    /// No row, and the error, if there is one.
    pub open spec fn ending(error: Option<ApertureError>) -> Answers {
        Answers { rows: Seq::empty(), error }
    }

    /// Some answers, and then others. An error ends them.
    #[verifier::opaque]
    pub open spec fn chain(self, next: Answers) -> Answers {
        if self.error is Some {
            self
        } else {
            Answers { rows: self.rows + next.rows, error: next.error }
        }
    }
}

/// What a body answers from step `k` on, the registers holding `env`.
#[verifier::opaque]
pub open spec fn answers<S: FactStore>(
    store: S,
    body: Seq<Step>,
    env: Seq<Option<Fact>>,
    k: nat,
) -> Answers
    decreases body.len() - k, 2nat, 0nat,
{
    if k >= body.len() {
        Answers::one(env)
    } else {
        match body[k as int] {
            Step::Level(level) => over_sources(store, body, env, k, level.sources@, level.binds@),
            Step::Test(Test::Absent(sources)) => match absent(store, env, sources@) {
                Ok(true) => answers(store, body, env, k + 1),
                Ok(false) => Answers::nothing(),
                Err(e) => Answers::ending(Some(e)),
            },
            // A step with nothing to compute binds nothing.
            Step::Derive(_) => answers(store, body, env, k + 1),
        }
    }
}

/// Step `k` over some alternatives of its level: one after another.
#[verifier::opaque]
pub open spec fn over_sources<S: FactStore>(
    store: S,
    body: Seq<Step>,
    env: Seq<Option<Fact>>,
    k: nat,
    sources: Seq<Source>,
    binds: Seq<Address>,
) -> Answers
    decreases body.len() - k, 1nat, sources.len(),
{
    if k >= body.len() || sources.len() == 0 {
        Answers::nothing()
    } else {
        over_offer(store, body, env, k, binds, offered(store, env, sources[0])).chain(
            over_sources(store, body, env, k, sources.skip(1), binds),
        )
    }
}

/// Step `k` over what one alternative offers.
#[verifier::opaque]
pub open spec fn over_offer<S: FactStore>(
    store: S,
    body: Seq<Step>,
    env: Seq<Option<Fact>>,
    k: nat,
    binds: Seq<Address>,
    offer: Offer,
) -> Answers
    decreases body.len() - k, 0nat, offer.facts.len(),
{
    if k >= body.len() || offer.facts.len() == 0 {
        Answers::ending(offer.error)
    } else {
        match machine::stray(binds, env.len(), 0) {
            Some(address) => Answers::ending(Some(ApertureError::AddressOutOfBounds(address))),
            None => answers(
                store,
                body,
                machine::bound(env, binds, offer.facts[0]),
                k + 1,
            ).chain(over_offer(store, body, env, k, binds, past(offer))),
        }
    }
}

/// What is offered after the first row.
pub open spec fn past(offer: Offer) -> Offer {
    Offer { facts: offer.facts.skip(1), error: offer.error }
}

/// What a program answers.
pub open spec fn answered<S: FactStore>(store: S, program: Program) -> Answers {
    answers(store, program.body@, machine::unbound(program.nvars as nat), 0)
}

/// A step of a body.
pub proof fn lemma_step<S: FactStore>(store: S, body: Seq<Step>, env: Seq<Option<Fact>>, k: nat)
    ensures
        k >= body.len() ==> answers(store, body, env, k) == Answers::one(env),
        k < body.len() ==> answers(store, body, env, k) == (match body[k as int] {
            Step::Level(level) => over_sources(store, body, env, k, level.sources@, level.binds@),
            Step::Test(Test::Absent(sources)) => match absent(store, env, sources@) {
                Ok(true) => answers(store, body, env, k + 1),
                Ok(false) => Answers::nothing(),
                Err(e) => Answers::ending(Some(e)),
            },
            Step::Derive(_) => answers(store, body, env, k + 1),
        }),
{
    reveal_with_fuel(answers, 1);
    reveal_with_fuel(over_sources, 1);
    reveal_with_fuel(over_offer, 1);
}

/// A level with an alternative left.
pub proof fn lemma_source<S: FactStore>(
    store: S,
    body: Seq<Step>,
    env: Seq<Option<Fact>>,
    k: nat,
    sources: Seq<Source>,
    binds: Seq<Address>,
)
    requires
        k < body.len(),
    ensures
        sources.len() > 0 ==> over_sources(store, body, env, k, sources, binds) == over_offer(
            store,
            body,
            env,
            k,
            binds,
            offered(store, env, sources[0]),
        ).chain(over_sources(store, body, env, k, sources.skip(1), binds)),
        sources.len() == 0 ==> over_sources(store, body, env, k, sources, binds)
            == Answers::nothing(),
{
    reveal_with_fuel(answers, 1);
    reveal_with_fuel(over_sources, 1);
    reveal_with_fuel(over_offer, 1);
}

/// An alternative with a row left.
pub proof fn lemma_row<S: FactStore>(
    store: S,
    body: Seq<Step>,
    env: Seq<Option<Fact>>,
    k: nat,
    binds: Seq<Address>,
    offer: Offer,
)
    requires
        k < body.len(),
    ensures
        offer.facts.len() == 0 ==> over_offer(store, body, env, k, binds, offer)
            == Answers::ending(offer.error),
        offer.facts.len() > 0 ==> over_offer(store, body, env, k, binds, offer) == (
        match machine::stray(binds, env.len(), 0) {
            Some(address) => Answers::ending(Some(ApertureError::AddressOutOfBounds(address))),
            None => answers(
                store,
                body,
                machine::bound(env, binds, offer.facts[0]),
                k + 1,
            ).chain(over_offer(store, body, env, k, binds, past(offer))),
        }),
{
    reveal_with_fuel(answers, 1);
    reveal_with_fuel(over_sources, 1);
    reveal_with_fuel(over_offer, 1);
}

// ---- reading registers ------------------------------------------------------

/// The field a path names in the row a register holds, encoded.
fn field_of(state: &MachineState, address: Address, path: &FieldPath) -> (field: Result<
    Vec<u8>,
    ApertureError,
>)
    requires
        state.wf(),
    ensures
        match (
            field,
            match machine::held(state@, address) {
                Ok(fact) => tuple::path_bytes(fact.key(), path@),
                Err(e) => Err(e),
            },
        ) {
            (Ok(bytes), Ok(expected)) => bytes@ == expected,
            (Err(e), Err(expected)) => e == expected,
            _ => false,
        },
{
    match state.get(address) {
        Ok(register) => {
            let mut offsets = FieldOffsets::new();
            path_value(&mut offsets, &register.key(), path)
        },
        Err(e) => Err(e),
    }
}

/// What every row of a seek begins with.
fn build_prefix(access: &Access, state: &MachineState) -> (made: Result<Vec<u8>, ApertureError>)
    requires
        state.wf(),
    ensures
        match (made, access_prefix(state@, *access)) {
            (Ok(prefix), Ok(expected)) => prefix@ == expected && prefix@.len() >= 4,
            (Err(e), Err(expected)) => e == expected,
            _ => false,
        },
{
    let mut prefix: Vec<u8> = Vec::new();
    put_big_endian(&mut prefix, access.predicate_id.0 as u64, 4);
    let ghost predicate = tuple::big_endian(access.predicate_id.0 as nat, 4);
    proof {
        assert(prefix@ =~= predicate);
        tuple::lemma_big_endian_len(access.predicate_id.0 as nat, 4);
    }
    match &access.seek_key {
        SeekKey::Prefix(bytes) => {
            append_bytes(&mut prefix, bytes);
        },
        SeekKey::Composite(parts) => {
            let mut k: usize = 0;
            while k < parts.len()
                invariant
                    state.wf(),
                    access.seek_key == SeekKey::Composite(*parts),
                    predicate == tuple::big_endian(access.predicate_id.0 as nat, 4),
                    k <= parts@.len(),
                    match machine::parts_bytes(state@, parts@, k as nat) {
                        Ok(made) => prefix@ == predicate + made,
                        Err(_) => false,
                    },
                decreases parts@.len() - k,
            {
                let part: Result<Vec<u8>, ApertureError> = match &parts[k] {
                    SeekKeyPart::Bytes(bytes) => {
                        let mut copy: Vec<u8> = Vec::new();
                        append_bytes(&mut copy, bytes);
                        proof {
                            assert(copy@ =~= bytes@);
                        }
                        Ok(copy)
                    },
                    SeekKeyPart::RegisterField { address, path } => field_of(state, *address, path),
                    SeekKeyPart::RegisterFactId(address) => match state.get(*address) {
                        Ok(register) => {
                            let mut reference: Vec<u8> = Vec::new();
                            put_fact_id(&mut reference, register.fact_id);
                            proof {
                                assert(reference@ =~= tuple::enc_fact(register.fact_id));
                            }
                            Ok(reference)
                        },
                        Err(e) => Err(e),
                    },
                };
                let bytes: Vec<u8> = match part {
                    Ok(bytes) => bytes,
                    Err(e) => {
                        proof {
                            machine::lemma_parts_fail(
                                state@,
                                parts@,
                                (k + 1) as nat,
                                parts@.len(),
                            );
                        }
                        return Err(e);
                    },
                };
                append_bytes(&mut prefix, &bytes);
                proof {
                    let made = machine::parts_bytes(state@, parts@, (k + 1) as nat)->Ok_0;
                    assert(prefix@ =~= predicate + made);
                }
                k += 1;
            }
        },
    }
    Ok(prefix)
}

/// Whether a row passes some filters.
fn check_filters(filters: &[Residual], row: &Register, state: &MachineState) -> (passes: Result<
    bool,
    ApertureError,
>)
    requires
        state.wf(),
        row.wf(),
    ensures
        passes == machine::passes(state@, filters@, row.fact(), filters@.len()),
{
    let ghost fact = row.fact();
    let key: ByteView = row.key();
    let mut k: usize = 0;
    while k < filters.len()
        invariant
            state.wf(),
            fact == row.fact(),
            blob::blob_bytes(key) == fact.key(),
            k <= filters@.len(),
            machine::passes(state@, filters@, fact, k as nat) == Ok::<bool, ApertureError>(true),
        decreases filters@.len() - k,
    {
        let filter: &Residual = &filters[k];
        let mut offsets = FieldOffsets::new();
        let passes: Result<bool, ApertureError> = match path_value(
            &mut offsets,
            &key,
            &filter.path,
        ) {
            Err(e) => Err(e),
            Ok(field) => match &filter.op {
                ResidualOp::EqConst(bytes) => Ok(same_bytes(&field, bytes)),
                ResidualOp::Prefix(bytes) => Ok(starts_with(&field, bytes)),
                ResidualOp::EqRegisterField { address, path } => match field_of(
                    state,
                    *address,
                    path,
                ) {
                    Ok(other) => Ok(same_bytes(&field, &other)),
                    Err(e) => Err(e),
                },
                ResidualOp::EqRegisterFactId(address) => match state.get(*address) {
                    Ok(register) => {
                        let mut reference: Vec<u8> = Vec::new();
                        put_fact_id(&mut reference, register.fact_id);
                        proof {
                            assert(reference@ =~= tuple::enc_fact(register.fact_id));
                        }
                        Ok(same_bytes(&field, &reference))
                    },
                    Err(e) => Err(e),
                },
            },
        };
        proof {
            assert(passes == machine::passes(state@, filters@, fact, (k + 1) as nat));
        }
        match passes {
            Ok(true) => {},
            other => {
                proof {
                    machine::lemma_passes_decided(
                        state@,
                        filters@,
                        fact,
                        (k + 1) as nat,
                        filters@.len(),
                    );
                }
                return other;
            },
        }
        k += 1;
    }
    Ok(true)
}

/// The fact a field of a register's row names.
fn find_reference(
    state: &MachineState,
    reference: Address,
    path: &FieldPath,
    predicate: PredicateId,
    interner: &LocalInterner,
) -> (id: Result<FactId, ApertureError>)
    requires
        state.wf(),
    ensures
        id == referenced(state@, reference, *path, predicate),
{
    let bytes: Vec<u8> = match field_of(state, reference, path) {
        Ok(bytes) => bytes,
        Err(e) => return Err(e),
    };
    let found = decode_typed(interner, &bytes, &PredicateTy::Fact(predicate));
    proof {
        let nameless = Names { schema: Seq::empty(), local: Seq::empty() };
        assert(tuple::decoded(interner@, bytes@, 0, PredicateTy::Fact(predicate))
            == tuple::decoded(nameless, bytes@, 0, PredicateTy::Fact(predicate)));
    }
    match found {
        Ok(Value::FactRef(id)) => Ok(id),
        Ok(_) => Err(ApertureError::Decode(StoreCodecError::BadRecord)),
        Err(StoreCodecError::FactRefPredicate { expected, found }) => Err(
            ApertureError::ReferenceCrossesPredicate {
                expected: PredicateId(expected),
                found: PredicateId(found),
            },
        ),
        Err(e) => Err(ApertureError::Decode(e)),
    }
}

// ---- reading a source -------------------------------------------------------

/// Every fact's key fits a row: its predicate's four bytes, then the key.
pub open spec fn keys_fit<S: FactStore>(store: S) -> bool {
    forall|id: FactId|
        (#[trigger] store.entity(id)) matches Some((key, _)) ==> key.len() + 4 <= blob::MAX_BLOB
}

/// A source under way: a scan, or the one row a reference names.
struct Candidates<S: FactStore> {
    scan: Option<S::Scan>,
    one: Option<Register>,
}

impl<S: FactStore> Candidates<S> {
    spec fn left(self) -> Seq<Fact> {
        match (self.scan, self.one) {
            (Some(scan), _) => scan.remaining(),
            (None, Some(row)) => seq![row.fact()],
            (None, None) => Seq::empty(),
        }
    }

    spec fn may_fail(self) -> bool {
        self.scan matches Some(scan) && scan.may_fail()
    }

    spec fn wf(self) -> bool {
        &&& self.scan matches Some(scan) ==> iter::whole_rows(scan.remaining())
        &&& self.one matches Some(row) ==> row.wf()
    }

    fn open(store: &S, source: &Source, state: &MachineState, interner: &LocalInterner) -> (
        opened: Result<Self, ApertureError>)
        requires
            state.wf(),
            keys_fit(*store),
        ensures
            match (opened, candidates(*store, state@, *source)) {
                (Ok(under_way), Ok(left)) => under_way.wf() && under_way.left() == left && (
                under_way.may_fail() ==> store.may_fail()),
                (Err(e), Err(expected)) if e == expected => true,
                (Err(_), _) => store.may_fail(),
                _ => false,
            },
    {
        match source {
            Source::Seek { access, .. } => {
                let prefix: Vec<u8> = match build_prefix(access, state) {
                    Ok(prefix) => prefix,
                    Err(e) => return Err(e),
                };
                proof {
                    machine::lemma_between_is_matching(store.facts(), prefix@);
                }
                let hi: Option<Vec<u8>> = strinc(&prefix);
                let end: Option<&[u8]> = match &hi {
                    Some(bytes) => Some(bytes.as_slice()),
                    None => None,
                };
                match store.scan(&prefix, end) {
                    Ok(scan) => {
                        proof {
                            exec::lemma_range_rows(
                                store.facts(),
                                prefix@,
                                plan::bound_bytes(end),
                            );
                        }
                        Ok(Candidates { scan: Some(scan), one: None })
                    },
                    Err(e) => Err(e),
                }
            },
            Source::Fetch { reference, path, predicate, .. } => {
                let id: FactId = match find_reference(
                    state,
                    *reference,
                    path,
                    *predicate,
                    interner,
                ) {
                    Ok(id) => id,
                    Err(e) => return Err(e),
                };
                match store.point(id) {
                    Ok(Some(entity)) => {
                        let mut row: Vec<u8> = Vec::new();
                        put_big_endian(&mut row, predicate.0 as u64, 4);
                        append_bytes(&mut row, as_bytes(&entity.key));
                        proof {
                            tuple::lemma_big_endian_len(predicate.0 as nat, 4);
                            assert(store.entity(id) is Some);
                            assert(row@ =~= tuple::big_endian(predicate.0 as nat, 4)
                                + blob::blob_bytes(entity.key));
                        }
                        let one = Register { fact_id: id, bytes: blob(&row) };
                        let made: Self = Candidates { scan: None, one: Some(one) };
                        proof {
                            assert(made.left() =~= candidates(*store, state@, *source)->Ok_0);
                        }
                        Ok(made)
                    },
                    Ok(None) => Err(ApertureError::Store(StoreError::DanglingFactId(id))),
                    Err(e) => Err(e),
                }
            },
        }
    }

    /// The next row, whatever the filters say.
    fn advance(&mut self) -> (row: Result<Option<Register>, ApertureError>)
        requires
            old(self).wf(),
        ensures
            final(self).may_fail() == old(self).may_fail(),
            match row {
                Ok(Some(row)) => {
                    &&& row.wf()
                    &&& old(self).left().len() > 0
                    &&& row.fact() == old(self).left()[0]
                    &&& final(self).left() == old(self).left().skip(1)
                    &&& final(self).wf()
                },
                Ok(None) => old(self).left().len() == 0 && final(self).left() == old(self).left()
                    && final(self).wf(),
                Err(_) => old(self).may_fail(),
            },
    {
        if self.scan.is_some() {
            let ghost left = self.left();
            let row = match &mut self.scan {
                Some(scan) => scan.next_row(),
                None => None,
            };
            match row {
                None => Ok(None),
                Some(Ok((bytes, fact_id))) => {
                    proof {
                        assert forall|i: int| 0 <= i < left.skip(1).len() implies (
                        #[trigger] left.skip(1)[i]).row.len() >= 4 by {
                            assert(left.skip(1)[i] == left[i + 1]);
                        }
                        assert(left[0].row.len() >= 4);
                    }
                    Ok(Some(Register { fact_id, bytes }))
                },
                Some(Err(e)) => Err(e),
            }
        } else {
            let mut row: Option<Register> = None;
            std::mem::swap(&mut row, &mut self.one);
            proof {
                assert(self.left() =~= old(self).left().skip(1) || old(self).left().len() == 0);
            }
            Ok(row)
        }
    }

    /// The next row that passes some filters.
    fn next(&mut self, filters: &[Residual], state: &MachineState) -> (row: Result<
        Option<Register>,
        ApertureError,
    >)
        requires
            old(self).wf(),
            state.wf(),
        ensures
            final(self).may_fail() == old(self).may_fail(),
            ({
                let offer = admitted(state@, filters@, old(self).left());
                match row {
                    Ok(Some(row)) => {
                        &&& row.wf()
                        &&& offer.facts.len() > 0
                        &&& row.fact() == offer.facts[0]
                        &&& admitted(state@, filters@, final(self).left()) == past(offer)
                        &&& final(self).wf()
                        &&& final(self).left().len() < old(self).left().len()
                    },
                    Ok(None) => offer.facts.len() == 0 && offer.error is None,
                    Err(e) => (offer.facts.len() == 0 && offer.error == Some(e)) || old(
                        self,
                    ).may_fail(),
                }
            }),
    {
        let ghost all = admitted(state@, filters@, self.left());
        loop
            invariant
                self.wf(),
                state.wf(),
                self.may_fail() == old(self).may_fail(),
                self.left().len() <= old(self).left().len(),
                all == admitted(state@, filters@, old(self).left()),
                all == admitted(state@, filters@, self.left()),
            decreases self.left().len(),
        {
            proof {
                reveal_with_fuel(admitted, 1);
            }
            let row: Register = match self.advance() {
                Ok(Some(row)) => row,
                Ok(None) => return Ok(None),
                Err(e) => return Err(e),
            };
            match check_filters(filters, &row, state) {
                Err(e) => return Err(e),
                Ok(false) => {},
                Ok(true) => {
                    proof {
                        assert(past(all) =~= admitted(state@, filters@, self.left()));
                    }
                    return Ok(Some(row));
                },
            }
        }
    }
}

/// Whether a source has no row.
fn is_empty<S: FactStore>(
    store: &S,
    source: &Source,
    state: &MachineState,
    interner: &LocalInterner,
) -> (none: Result<bool, ApertureError>)
    requires
        state.wf(),
        keys_fit(*store),
    ensures
        none == empty(*store, state@, *source) || (none is Err && store.may_fail()),
{
    proof {
        reveal(offered);
    }
    match Candidates::open(store, source, state, interner) {
        Ok(mut under_way) => match under_way.next(source.residuals(), state) {
            Ok(Some(_)) => Ok(false),
            Ok(None) => Ok(true),
            Err(e) => Err(e),
        },
        Err(e) => Err(e),
    }
}

/// Whether none of some sources has a row.
fn are_absent<S: FactStore>(
    store: &S,
    sources: &[Source],
    state: &MachineState,
    interner: &LocalInterner,
) -> (none: Result<bool, ApertureError>)
    requires
        state.wf(),
        keys_fit(*store),
    ensures
        none == absent(*store, state@, sources@) || (none is Err && store.may_fail()),
{
    let mut j: usize = 0;
    proof {
        assert(sources@.skip(0) =~= sources@);
    }
    while j < sources.len()
        invariant
            state.wf(),
            keys_fit(*store),
            j <= sources@.len(),
            absent(*store, state@, sources@) == absent(*store, state@, sources@.skip(j as int)),
        decreases sources@.len() - j,
    {
        proof {
            assert(sources@.skip(j as int).skip(1) =~= sources@.skip(j + 1));
        }
        match is_empty(store, &sources[j], state, interner) {
            Ok(true) => {},
            other => return other,
        }
        j += 1;
    }
    Ok(true)
}

// ---- answering --------------------------------------------------------------

/// Whether an error is the one some answers end in, or a row's head comes to.
pub open spec fn fails<S: FactStore>(
    store: S,
    names: Names,
    head: Projection,
    answers: Answers,
    error: ApertureError,
) -> bool {
    ||| answers.error == Some(error)
    ||| exists|k: int|
        0 <= k < answers.rows.len() && #[trigger] iter::projected(
            store,
            names,
            answers.rows[k],
            head,
        ) == Err::<Datum, ApertureError>(error)
    ||| store.may_fail()
}

/// Whether `values` are the heads of the rows, after which nothing failed.
pub open spec fn yields<S: FactStore>(
    store: S,
    names: Names,
    head: Projection,
    answers: Answers,
    values: Seq<Value>,
) -> bool {
    answers.error is None && fixtures::heads_of(store, names, head, answers.rows, values)
}

pub proof fn lemma_chain(a: Answers, b: Answers, c: Answers)
    ensures
        a.chain(b).chain(c) == a.chain(b.chain(c)),
        Answers::nothing().chain(a) == a,
        a.chain(Answers::nothing()) == a,
{
    reveal(Answers::chain);
    assert(a.chain(b).chain(c) =~= a.chain(b.chain(c)));
    assert(Answers::nothing().chain(a) =~= a);
    assert(a.chain(Answers::nothing()) =~= a);
}

/// What fails in the middle fails altogether, where nothing failed before it.
proof fn lemma_fails_within<S: FactStore>(
    store: S,
    names: Names,
    head: Projection,
    before: Answers,
    part: Answers,
    after: Answers,
    error: ApertureError,
)
    requires
        before.error is None,
        fails(store, names, head, part, error),
    ensures
        fails(store, names, head, before.chain(part.chain(after)), error),
{
    reveal(Answers::chain);
    let whole = before.chain(part.chain(after));
    if part.error != Some(error) && !store.may_fail() {
        let k = choose|k: int|
            0 <= k < part.rows.len() && #[trigger] iter::projected(
                store,
                names,
                part.rows[k],
                head,
            ) == Err::<Datum, ApertureError>(error);
        assert(whole.rows[before.rows.len() + k] == part.rows[k]);
    }
}

/// Heads of some rows, and then of others.
proof fn lemma_yields_more<S: FactStore>(
    store: S,
    names: Names,
    head: Projection,
    before: Answers,
    part: Answers,
    values: Seq<Value>,
    more: Seq<Value>,
)
    requires
        yields(store, names, head, before, values),
        yields(store, names, head, part, more),
    ensures
        yields(store, names, head, before.chain(part), values + more),
{
    reveal(Answers::chain);
    let (whole, all) = (before.chain(part), values + more);
    assert forall|i: int| 0 <= i < all.len() implies iter::projected(
        store,
        names,
        whole.rows[i],
        head,
    ) == Ok::<Datum, ApertureError>((#[trigger] all[i]).datum()) by {
        if i < values.len() {
            assert(all[i] == values[i]);
        } else {
            assert(all[i] == more[i - values.len()]);
        }
    }
}

/// The registers, and a row bound to each of `binds`.
fn bound_to(state: &MachineState, binds: &[Address], row: &Register) -> (next: Result<
    MachineState,
    ApertureError,
>)
    requires
        state.wf(),
        row.wf(),
    ensures
        match (next, machine::stray(binds@, state@.len(), 0)) {
            (Ok(next), None) => next@ == machine::bound(state@, binds@, row.fact()) && next.wf(),
            (Err(e), Some(address)) => e == ApertureError::AddressOutOfBounds(address),
            _ => false,
        },
{
    let mut next: MachineState = state.copy();
    match next.bind(binds, row) {
        Ok(_) => Ok(next),
        Err(e) => Err(e),
    }
}

/// A program being answered: what it reads, and the heads found so far.
struct Asking<'a, S: FactStore> {
    store: &'a S,
    program: &'a Program,
    interner: &'a LocalInterner,
    out: Vec<Value>,
}

impl<'a, S: FactStore> Asking<'a, S> {
    spec fn head(self) -> Projection {
        self.program.head.shape()
    }

    spec fn same(self, other: Self) -> bool {
        &&& self.store == other.store
        &&& self.program == other.program
        &&& self.interner == other.interner
    }

    spec fn ready(self) -> bool {
        keys_fit(*self.store)
    }

    /// What asking came to: the heads of some answers more, or why there are none.
    #[verifier::opaque]
    spec fn came_to(self, after: Self, answers: Answers, done: Result<(), ApertureError>) -> bool {
        &&& self.same(after)
        &&& match done {
            Ok(_) => after.out@.len() >= self.out@.len() && after.out@.take(self.out@.len() as int)
                == self.out@ && yields(
                *self.store,
                self.interner@,
                self.head(),
                answers,
                after.out@.skip(self.out@.len() as int),
            ),
            Err(e) => fails(*self.store, self.interner@, self.head(), answers, e),
        }
    }

    /// One part more: where nothing failed before it, what it comes to decides.
    proof fn lemma_then(
        self,
        middle: Self,
        after: Self,
        before: Answers,
        part: Answers,
        rest: Answers,
        done: Result<(), ApertureError>,
    )
        requires
            self.came_to(middle, before, Ok(())),
            middle.came_to(after, part, done),
        ensures
            done is Ok ==> self.came_to(after, before.chain(part), Ok(())),
            done is Err ==> self.came_to(after, before.chain(part.chain(rest)), done),
    {
        reveal(Asking::came_to);
        let n = self.out@.len() as int;
        let m = middle.out@.len() as int;
        if done is Ok {
            assert(after.out@.take(n) =~= after.out@.take(m).take(n));
            assert(after.out@.skip(n) =~= middle.out@.skip(n) + after.out@.skip(m));
            lemma_yields_more(
                *self.store,
                self.interner@,
                self.head(),
                before,
                part,
                middle.out@.skip(n),
                after.out@.skip(m),
            );
        } else {
            lemma_fails_within(
                *self.store,
                self.interner@,
                self.head(),
                before,
                part,
                rest,
                done->Err_0,
            );
        }
    }

    proof fn lemma_at_start(self)
        ensures
            self.came_to(self, Answers::nothing(), Ok(())),
    {
        reveal(Asking::came_to);
        assert(self.out@.take(self.out@.len() as int) =~= self.out@);
        assert(self.out@.skip(self.out@.len() as int) =~= Seq::<Value>::empty());
    }

    /// What ends in an error, where nothing failed before it.
    proof fn lemma_ends(self, now: Self, before: Answers, part: Answers, error: ApertureError)
        requires
            self.came_to(now, before, Ok(())),
            part.error == Some(error) || self.store.may_fail(),
        ensures
            self.came_to(now, before.chain(part), Err(error)),
    {
        reveal(Answers::chain);
        reveal(Asking::came_to);
    }

    proof fn lemma_same(self, after: Self, answers: Answers, done: Result<(), ApertureError>)
        requires
            self.came_to(after, answers, done),
        ensures
            self.same(after),
    {
        reveal(Asking::came_to);
    }

    /// The rows from step `k` on, the registers being `state`.
    fn ask(&mut self, k: usize, state: &MachineState) -> (done: Result<(), ApertureError>)
        requires
            old(self).ready(),
            state.wf(),
        ensures
            old(self).came_to(
                *final(self),
                answers(*old(self).store, old(self).program.body@, state@, k as nat),
                done,
            ),
        decreases old(self).program.body@.len() - k, 2nat, 0nat,
    {
        proof {
            lemma_step(*self.store, self.program.body@, state@, k as nat);
        }
        if k >= self.program.body.len() {
            proof {
                reveal(Asking::came_to);
            }
            let ghost before = self.out@;
            match project(self.interner, &self.program.head, state, self.store) {
                Ok(value) => {
                    self.out.push(value);
                    proof {
                        assert(self.out@.take(before.len() as int) =~= before);
                        assert(self.out@.skip(before.len() as int) =~= seq![value]);
                    }
                    return Ok(());
                },
                Err(e) => {
                    proof {
                        let found = Answers::one(state@);
                        assert(found.rows[0] == state@);
                    }
                    return Err(e);
                },
            }
        }
        match &self.program.body[k] {
            Step::Level(level) => {
                self.ask_sources(k, level, state)
            },
            Step::Test(Test::Absent(sources)) => match are_absent(
                self.store,
                sources,
                state,
                self.interner,
            ) {
                Ok(true) => self.ask(k + 1, state),
                Ok(false) => {
                    proof {
                        self.lemma_at_start();
                    }
                    Ok(())
                },
                Err(e) => {
                    proof {
                        self.lemma_at_start();
                        let found = answers(*self.store, self.program.body@, state@, k as nat);
                        self.lemma_ends(*self, Answers::nothing(), found, e);
                        lemma_chain(found, found, found);
                    }
                    Err(e)
                },
            },
            Step::Derive(_) => self.ask(k + 1, state),
        }
    }

    /// The rows of a level: its alternatives, one after another.
    fn ask_sources(&mut self, k: usize, level: &Level, state: &MachineState) -> (done: Result<
        (),
        ApertureError,
    >)
        requires
            old(self).ready(),
            state.wf(),
            k < old(self).program.body@.len(),
        ensures
            old(self).came_to(
                *final(self),
                over_sources(
                    *old(self).store,
                    old(self).program.body@,
                    state@,
                    k as nat,
                    level.sources@,
                    level.binds@,
                ),
                done,
            ),
        decreases old(self).program.body@.len() - k, 1nat, 0nat,
    {
        let ghost body = self.program.body@;
        let ghost store = *self.store;
        let ghost all = over_sources(store, body, state@, k as nat, level.sources@, level.binds@);
        let ghost mut before = Answers::nothing();
        proof {
            self.lemma_at_start();
            lemma_chain(all, all, all);
            assert(level.sources@.skip(0) =~= level.sources@);
        }
        let mut j: usize = 0;
        while j < level.sources.len()
            invariant
                self.ready(),
                state.wf(),
                k < body.len(),
                body == self.program.body@,
                body == old(self).program.body@,
                store == *self.store,
                store == *old(self).store,
                j <= level.sources@.len(),
                old(self).came_to(*self, before, Ok(())),
                all == over_sources(store, body, state@, k as nat, level.sources@, level.binds@),
                all == before.chain(
                    over_sources(
                        store,
                        body,
                        state@,
                        k as nat,
                        level.sources@.skip(j as int),
                        level.binds@,
                    ),
                ),
            decreases level.sources@.len() - j,
        {
            let ghost middle = *self;
            let source: &Source = &level.sources[j];
            let ghost part = over_offer(
                store,
                body,
                state@,
                k as nat,
                level.binds@,
                offered(store, state@, *source),
            );
            let ghost left = level.sources@.skip(j as int);
            let ghost rest = over_sources(
                store,
                body,
                state@,
                k as nat,
                level.sources@.skip(j + 1),
                level.binds@,
            );
            proof {
                assert(left.skip(1) =~= level.sources@.skip(j + 1));
                lemma_source(store, body, state@, k as nat, left, level.binds@);
            }
            let done = self.ask_source(k, source, &level.binds, state);
            proof {
                middle.lemma_same(*self, part, done);
                old(self).lemma_then(middle, *self, before, part, rest, done);
                lemma_chain(before, part, rest);
            }
            if done.is_err() {
                return done;
            }
            proof {
                before = before.chain(part);
            }
            j += 1;
        }
        proof {
            lemma_source(
                store,
                body,
                state@,
                k as nat,
                level.sources@.skip(j as int),
                level.binds@,
            );
            lemma_chain(before, before, before);
        }
        Ok(())
    }

    /// The rows of one alternative.
    fn ask_source(
        &mut self,
        k: usize,
        source: &Source,
        binds: &[Address],
        state: &MachineState,
    ) -> (done: Result<(), ApertureError>)
        requires
            old(self).ready(),
            state.wf(),
            k < old(self).program.body@.len(),
        ensures
            old(self).came_to(
                *final(self),
                over_offer(
                    *old(self).store,
                    old(self).program.body@,
                    state@,
                    k as nat,
                    binds@,
                    offered(*old(self).store, state@, *source),
                ),
                done,
            ),
        decreases old(self).program.body@.len() - k, 0nat, 0nat,
    {
        let ghost body = self.program.body@;
        let ghost store = *self.store;
        proof {
            reveal(offered);
            lemma_row(
                store,
                body,
                state@,
                k as nat,
                binds@,
                offered(store, state@, *source),
            );
            self.lemma_at_start();
        }
        let mut under_way = match Candidates::open(self.store, source, state, self.interner) {
            Ok(under_way) => under_way,
            Err(e) => {
                proof {
                    let found = over_offer(
                        store,
                        body,
                        state@,
                        k as nat,
                        binds@,
                        offered(store, state@, *source),
                    );
                    self.lemma_ends(*self, Answers::nothing(), found, e);
                    lemma_chain(found, found, found);
                }
                return Err(e);
            },
        };
        let filters: &[Residual] = source.residuals();
        let steps: usize = self.program.body.len();
        let ghost all = over_offer(
            store,
            body,
            state@,
            k as nat,
            binds@,
            admitted(state@, filters@, under_way.left()),
        );
        let ghost mut before = Answers::nothing();
        proof {
            lemma_chain(all, all, all);
        }
        loop
            invariant
                self.ready(),
                state.wf(),
                under_way.wf(),
                under_way.may_fail() ==> store.may_fail(),
                k < body.len() == steps,
                body == self.program.body@,
                body == old(self).program.body@,
                store == *self.store,
                store == *old(self).store,
                old(self).came_to(*self, before, Ok(())),
                all == over_offer(
                    store,
                    body,
                    state@,
                    k as nat,
                    binds@,
                    offered(store, state@, *source),
                ),
                all == before.chain(
                    over_offer(
                        store,
                        body,
                        state@,
                        k as nat,
                        binds@,
                        admitted(state@, filters@, under_way.left()),
                    ),
                ),
            decreases under_way.left().len(),
        {
            let ghost middle = *self;
            let ghost offer = admitted(state@, filters@, under_way.left());
            proof {
                lemma_row(store, body, state@, k as nat, binds@, offer);
            }
            let row: Register = match under_way.next(filters, state) {
                Ok(Some(row)) => row,
                Ok(None) => {
                    proof {
                        lemma_chain(before, before, before);
                    }
                    return Ok(());
                },
                Err(e) => {
                    proof {
                        old(self).lemma_ends(
                            *self,
                            before,
                            over_offer(store, body, state@, k as nat, binds@, offer),
                            e,
                        );
                    }
                    return Err(e);
                },
            };
            let next: MachineState = match bound_to(state, binds, &row) {
                Ok(next) => next,
                Err(e) => {
                    proof {
                        old(self).lemma_ends(
                            *self,
                            before,
                            over_offer(store, body, state@, k as nat, binds@, offer),
                            e,
                        );
                    }
                    return Err(e);
                },
            };
            let ghost part = answers(store, body, next@, (k + 1) as nat);
            let ghost rest = over_offer(store, body, state@, k as nat, binds@, past(offer));
            let done = self.ask(k + 1, &next);
            proof {
                middle.lemma_same(*self, part, done);
                old(self).lemma_then(middle, *self, before, part, rest, done);
                lemma_chain(before, part, rest);
            }
            if done.is_err() {
                return done;
            }
            proof {
                before = before.chain(part);
            }
        }
    }
}

/// Answer a program: the head of every row, in order.
pub fn collect_answers<S: FactStore>(store: &S, program: &Program, interner: &LocalInterner) -> (
    rows: Result<Vec<Value>, ApertureError>)
    requires
        keys_fit(*store),
    ensures
        match rows {
            Ok(values) => yields(
                *store,
                interner@,
                program.head.shape(),
                answered(*store, *program),
                values@,
            ),
            Err(e) => fails(
                *store,
                interner@,
                program.head.shape(),
                answered(*store, *program),
                e,
            ),
        },
{
    let state = MachineState::new(program.nvars);
    let mut asking = Asking { store, program, interner, out: Vec::new() };
    let done = asking.ask(0, &state);
    proof {
        reveal(Asking::came_to);
        assert(asking.out@.skip(0) =~= asking.out@);
    }
    match done {
        Ok(_) => Ok(asking.out),
        Err(e) => Err(e),
    }
}

} // verus!
