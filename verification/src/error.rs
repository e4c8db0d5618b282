//! What can go wrong: in a running query, in the store behind it, in a fact being
//! written, and in the bytes of a stored row.
use vstd::prelude::*;
use vstd::string::StringExecFns;

use crate::iter::Address;
use crate::lexer;
use crate::plan::FactId;
use crate::schema::{PredicateId, Symbol};
use crate::shape::apart;
use crate::text;
use crate::text::{around, push_decimal, push_hexadecimal};

verus! {

/// [`fjall::Error`], what the storage backend itself reports. Opaque: it is carried
/// through, never looked into.
#[verifier::external_type_specification]
#[verifier::external_body]
pub struct ExBackendError(fjall::Error);

/// The number a database's format stamp carries.
#[derive(Debug, Clone, Copy, PartialEq, Eq, Structural)]
pub struct FormatVersion(pub u16);

/// What identifies the plan a resume cursor was built from.
#[derive(Debug, Clone, Copy, PartialEq, Eq, Structural)]
pub struct PlanFingerprint(pub u64);

/// A fault in a running query.
#[derive(Debug)]
#[non_exhaustive]
#[allow(inconsistent_fields)]
pub enum ApertureError {
    Decode(StoreCodecError),
    UseBeforeBind(Address),
    SlotKindMismatch { address: Address, wanted: &'static str, held: &'static str },
    AddressOutOfBounds(Address),
    AdvanceAfterClose,
    /// A resume cursor naming more levels than the plan has.
    CursorPlanMismatch { cursor: usize, plan: usize },
    /// A resume cursor built by a different build of the engine.
    CursorVersion { cursor: u16, executor: u16 },
    /// A resume cursor built from a different plan.
    CursorPlan { cursor: PlanFingerprint, plan: PlanFingerprint },
    /// A resume cursor naming an alternative the level does not have.
    CursorSourceOutOfRange { index: usize, sources: usize },
    BadResumeKey,
    /// A plan stepping into a key field that is not a record.
    NotARecord { step: usize },
    /// A plan naming a nested field the record does not have.
    NestedFieldOutOfRange { step: usize },
    /// A stored reference naming another predicate than its field is declared to.
    ReferenceCrossesPredicate { expected: PredicateId, found: PredicateId },
    Cancelled,
    Store(StoreError),
}

/// A database this build cannot read, decided from its format stamp before a single
/// row is touched.
#[derive(Debug)]
#[non_exhaustive]
#[allow(inconsistent_fields)]
pub enum FormatError {
    /// A database holding facts but carrying no stamp.
    Unstamped,
    /// A stamp naming a format this build does not implement.
    Unreadable { found: FormatVersion, current: FormatVersion },
    Truncated { len: usize, expected: usize },
    BadMagic { found: [u8; 8] },
}

/// An id that could not be composed.
#[derive(Debug, Clone, Copy, PartialEq, Eq, Structural)]
#[allow(inconsistent_fields)]
pub enum FactIdError {
    /// The predicate does not fit the tag.
    PredicateIdTooWide { predicate: u32, max: u32 },
    /// The sequence is the reserved 0, or past the largest one.
    FactIdSequence { sequence: u64, max: u64 },
}

/// Faults raised by the storage backend, or by rows on disk that do not match the
/// layout the store wrote.
#[derive(Debug)]
#[non_exhaustive]
#[allow(inconsistent_fields)]
pub enum StoreError {
    Backend(fjall::Error),
    Format(FormatError),
    Fact(FactError),
    /// A key row naming an id with no row behind it.
    DanglingFactId(FactId),
    FactIdWidth { len: usize, expected: usize },
    TruncatedEntity(FactId),
    /// A key row too short to carry the predicate prefix every row begins with.
    ShortKeyRow { len: usize, expected: usize },
    ShortScanBound { len: usize, expected: usize },
    Id(FactIdError),
    /// A fact written under one predicate with an id tagged for another.
    FactIdPredicateMismatch { expected: PredicateId, found: FactId },
    /// A second, differing fact offered for a key that already holds one.
    KeyAlreadyWritten { predicate: PredicateId, existing: FactId },
}

/// A fault in a write: a fact that does not fit the schema it is being written under.
#[derive(Debug)]
#[non_exhaustive]
#[allow(inconsistent_fields)]
pub enum FactError {
    UnknownPredicate(String),
    UnknownField { predicate: String, field: String },
    MissingField { predicate: String, field: String },
    TypeMismatch { predicate: String, expected: String, got: String },
    UnexpectedValue(String),
    MissingValue(String),
    Codec(StoreCodecError),
}

/// Why some bytes are not UTF-8: how many of them are, and how long the sequence behind
/// those is that is not, where it is more than the end come too early.
#[derive(Debug, Clone, Copy, PartialEq, Eq)]
pub struct BadUtf8 {
    pub valid_up_to: usize,
    pub error_len: Option<usize>,
}

/// Bytes that do not decode.
#[derive(Debug, Clone, Copy, PartialEq, Eq)]
#[allow(inconsistent_fields)]
pub enum StoreCodecError {
    UnexpectedEof,
    /// A symbol the interner cannot resolve, hit while naming a record's field.
    UnknownSymbol(Symbol),
    UnexpectedMark(u8),
    UnexpectedTerminator,
    /// A string whose bytes are not UTF-8.
    BadString(BadUtf8),
    BadInteger,
    BadRecord,
    /// A reference naming another predicate than the field is declared to.
    FactRefPredicate { expected: u32, found: u32 },
    /// A reference whose sequence is the reserved 0.
    ReservedFactId,
    Overflow,
    Underflow,
}

// ---- what an error says -----------------------------------------------------

/// A predicate's id as `Debug` shows it.
pub open spec fn predicate_shown(id: PredicateId) -> Seq<char> {
    "PredicateId("@ + text::decimal(id.0 as nat) + ")"@
}

/// A fact's id as `Debug` shows it.
pub open spec fn fact_shown(id: FactId) -> Seq<char> {
    "FactId("@ + text::decimal(id.bits() as nat) + ")"@
}

/// A symbol as its tier and the interner's key, which counts from 1.
pub open spec fn symbol_shown(symbol: Symbol) -> Seq<char> {
    match symbol {
        Symbol::Schema(key) => "Schema(Spur("@ + text::decimal((key.0 + 1) as nat) + "))"@,
        Symbol::Local(key) => "Local(Spur("@ + text::decimal((key.0 + 1) as nat) + "))"@,
    }
}

/// What is wrong with bytes that are not UTF-8.
pub open spec fn utf8_shown(bad: BadUtf8) -> Seq<char> {
    match bad.error_len {
        Some(len) => "invalid utf-8 sequence of "@ + text::decimal(len as nat)
            + " bytes from index "@ + text::decimal(bad.valid_up_to as nat),
        None => "incomplete utf-8 byte sequence from index "@ + text::decimal(
            bad.valid_up_to as nat,
        ),
    }
}

/// A plan's fingerprint as `Debug` shows it.
pub open spec fn fingerprint_shown(print: PlanFingerprint) -> Seq<char> {
    "PlanFingerprint("@ + text::decimal(print.0 as nat) + ")"@
}

/// The first `k` bytes of a list, a comma between them.
pub open spec fn bytes_shown(bytes: Seq<u8>, k: nat) -> Seq<char>
    decreases k,
{
    if k == 0 {
        Seq::empty()
    } else {
        bytes_shown(bytes, (k - 1) as nat) + (if k > 1 {
            ", "@
        } else {
            Seq::empty()
        }) + text::decimal(bytes[k - 1] as nat)
    }
}

/// A byte in hexadecimal, behind `0x`, without leading zeros.
pub open spec fn byte_shown(byte: u8) -> Seq<char> {
    "0x"@ + text::hexadecimal(
        byte as nat,
        if byte < 16 {
            1
        } else {
            2
        },
    )
}

impl StoreCodecError {
    pub open spec fn wording(self) -> Seq<char> {
        match self {
            StoreCodecError::UnexpectedEof => "unexpected end of input"@,
            StoreCodecError::UnknownSymbol(symbol) => "unknown symbol: "@ + symbol_shown(symbol),
            StoreCodecError::UnexpectedMark(mark) => "unexpected mark: "@ + byte_shown(mark),
            StoreCodecError::UnexpectedTerminator => "unexpected terminator"@,
            StoreCodecError::BadString(bad) => utf8_shown(bad),
            StoreCodecError::BadInteger => "bad integer"@,
            StoreCodecError::BadRecord => "bad record"@,
            StoreCodecError::FactRefPredicate { expected, found } =>
                "a reference declared to name predicate "@ + text::decimal(expected as nat)
                    + " names predicate "@ + text::decimal(found as nat),
            StoreCodecError::ReservedFactId =>
                "fact-id sequence 0 is reserved, so these bytes are not a fact reference"@,
            StoreCodecError::Overflow => "integer overflow"@,
            StoreCodecError::Underflow => "integer underflow"@,
        }
    }

    /// What the error says.
    pub fn message(&self) -> (text: String)
        ensures
            text@ == self.wording(),
    {
        match self {
            StoreCodecError::UnexpectedEof => "unexpected end of input".to_owned(),
            StoreCodecError::UnknownSymbol(symbol) => {
                let mut text: String = "unknown symbol: ".to_owned();
                push_symbol(&mut text, *symbol);
                text
            },
            StoreCodecError::UnexpectedMark(mark) => {
                let mut text: String = "unexpected mark: ".to_owned();
                push_byte(&mut text, *mark);
                text
            },
            StoreCodecError::UnexpectedTerminator => "unexpected terminator".to_owned(),
            StoreCodecError::BadString(bad) => {
                let mut text: String = String::new();
                push_utf8(&mut text, *bad);
                proof {
                    assert(Seq::<char>::empty() + utf8_shown(*bad) =~= utf8_shown(*bad));
                }
                text
            },
            StoreCodecError::BadInteger => "bad integer".to_owned(),
            StoreCodecError::BadRecord => "bad record".to_owned(),
            StoreCodecError::FactRefPredicate { expected, found } => {
                let mut text: String = "a reference declared to name predicate ".to_owned();
                push_decimal(&mut text, *expected as u64);
                text.append(" names predicate ");
                push_decimal(&mut text, *found as u64);
                text
            },
            StoreCodecError::ReservedFactId => {
                "fact-id sequence 0 is reserved, so these bytes are not a fact reference".to_owned()
            },
            StoreCodecError::Overflow => "integer overflow".to_owned(),
            StoreCodecError::Underflow => "integer underflow".to_owned(),
        }
    }
}

fn push_predicate(out: &mut String, id: PredicateId)
    ensures
        final(out)@ == old(out)@ + predicate_shown(id),
{
    out.append("PredicateId(");
    push_decimal(out, id.0 as u64);
    out.append(")");
    proof {
        assert(out@ =~= old(out)@ + predicate_shown(id));
    }
}

fn push_fact(out: &mut String, id: FactId)
    ensures
        final(out)@ == old(out)@ + fact_shown(id),
{
    out.append("FactId(");
    push_decimal(out, id.raw());
    out.append(")");
    proof {
        assert(out@ =~= old(out)@ + fact_shown(id));
    }
}

fn push_fingerprint(out: &mut String, print: PlanFingerprint)
    ensures
        final(out)@ == old(out)@ + fingerprint_shown(print),
{
    out.append("PlanFingerprint(");
    push_decimal(out, print.0);
    out.append(")");
    proof {
        assert(out@ =~= old(out)@ + fingerprint_shown(print));
    }
}

fn push_symbol(out: &mut String, symbol: Symbol)
    ensures
        final(out)@ == old(out)@ + symbol_shown(symbol),
{
    match symbol {
        Symbol::Schema(key) => {
            out.append("Schema(Spur(");
            push_successor(out, key.0);
        },
        Symbol::Local(key) => {
            out.append("Local(Spur(");
            push_successor(out, key.0);
        },
    }
    out.append("))");
    proof {
        assert(out@ =~= old(out)@ + symbol_shown(symbol));
    }
}

/// Append the number after `n`.
fn push_successor(out: &mut String, n: usize)
    ensures
        final(out)@ == old(out)@ + text::decimal((n + 1) as nat),
{
    let next: u128 = n as u128 + 1;
    if next < 10 {
        push_decimal(out, next as u64);
    } else {
        push_decimal(out, (next / 10) as u64);
        push_decimal(out, (next % 10) as u64);
        proof {
            assert(old(out)@ + text::decimal((next / 10) as nat) + text::digit((next % 10) as nat)
                =~= old(out)@ + (text::decimal((next / 10) as nat) + text::digit(
                (next % 10) as nat,
            )));
        }
    }
}

fn push_utf8(out: &mut String, bad: BadUtf8)
    ensures
        final(out)@ == old(out)@ + utf8_shown(bad),
{
    match bad.error_len {
        Some(len) => {
            out.append("invalid utf-8 sequence of ");
            push_decimal(out, len as u64);
            out.append(" bytes from index ");
        },
        None => {
            out.append("incomplete utf-8 byte sequence from index ");
        },
    }
    push_decimal(out, bad.valid_up_to as u64);
    proof {
        assert(out@ =~= old(out)@ + utf8_shown(bad));
    }
}

fn push_byte(out: &mut String, byte: u8)
    ensures
        final(out)@ == old(out)@ + byte_shown(byte),
{
    out.append("0x");
    push_hexadecimal(
        out,
        byte as u32,
        if byte < 16 {
            1
        } else {
            2
        },
    );
    proof {
        assert(out@ =~= old(out)@ + byte_shown(byte));
    }
}

impl FactError {
    pub open spec fn wording(self) -> Seq<char> {
        match self {
            FactError::UnknownPredicate(name) => "no predicate called `"@ + name@ + "`"@,
            FactError::UnknownField { predicate, field } => "`"@ + predicate@
                + "` declares no field called `"@ + field@ + "`"@,
            FactError::MissingField { predicate, field } => "`"@ + predicate@
                + "` declares a field `"@ + field@ + "` that this fact does not set"@,
            FactError::TypeMismatch { predicate, expected, got } => "`"@ + predicate@
                + "` expects "@ + expected@ + " here, but this fact offers "@ + got@,
            FactError::UnexpectedValue(name) => "`"@ + name@
                + "` has no value side, but this fact offers one"@,
            FactError::MissingValue(name) => "`"@ + name@
                + "` declares a value side, but this fact offers none"@,
            FactError::Codec(error) => error.wording(),
        }
    }

    /// What the error says.
    pub fn message(&self) -> (text: String)
        ensures
            text@ == self.wording(),
    {
        match self {
            FactError::UnknownPredicate(name) => around("no predicate called `", name, "`"),
            FactError::UnknownField { predicate, field } => {
                let mut text: String = around("`", predicate, "` declares no field called `");
                text.append(field);
                text.append("`");
                text
            },
            FactError::MissingField { predicate, field } => {
                let mut text: String = around("`", predicate, "` declares a field `");
                text.append(field);
                text.append("` that this fact does not set");
                text
            },
            FactError::TypeMismatch { predicate, expected, got } => {
                let mut text: String = around("`", predicate, "` expects ");
                text.append(expected);
                text.append(" here, but this fact offers ");
                text.append(got);
                text
            },
            FactError::UnexpectedValue(name) => {
                around("`", name, "` has no value side, but this fact offers one")
            },
            FactError::MissingValue(name) => {
                around("`", name, "` declares a value side, but this fact offers none")
            },
            FactError::Codec(error) => error.message(),
        }
    }
}

impl FactIdError {
    pub open spec fn wording(self) -> Seq<char> {
        match self {
            FactIdError::PredicateIdTooWide { predicate, max } => "predicate id "@ + text::decimal(
                predicate as nat,
            ) + " does not fit a fact id, whose tag holds at most "@ + text::decimal(max as nat),
            FactIdError::FactIdSequence { sequence, max } => "fact-id sequence "@ + text::decimal(
                sequence as nat,
            ) + " is not in 1..="@ + text::decimal(max as nat),
        }
    }

    /// What the error says.
    pub fn message(&self) -> (text: String)
        ensures
            text@ == self.wording(),
    {
        match self {
            FactIdError::PredicateIdTooWide { predicate, max } => {
                let mut text: String = "predicate id ".to_owned();
                push_decimal(&mut text, *predicate as u64);
                text.append(" does not fit a fact id, whose tag holds at most ");
                push_decimal(&mut text, *max as u64);
                text
            },
            FactIdError::FactIdSequence { sequence, max } => {
                let mut text: String = "fact-id sequence ".to_owned();
                push_decimal(&mut text, *sequence);
                text.append(" is not in 1..=");
                push_decimal(&mut text, *max);
                text
            },
        }
    }
}

impl FormatError {
    pub open spec fn wording(self) -> Seq<char> {
        match self {
            FormatError::Unstamped =>
                "this database holds facts but carries no format stamp, so nothing says which encoding wrote it"@,
            FormatError::Unreadable { found, current } => "this database is format "@
                + text::decimal(found.0 as nat) + "; this build reads format "@ + text::decimal(
                current.0 as nat,
            ),
            FormatError::Truncated { len, expected } => "the format stamp is "@ + text::decimal(
                len as nat,
            ) + " bytes, not "@ + text::decimal(expected as nat),
            FormatError::BadMagic { found } =>
                "the format stamp does not begin with the Aperture magic (found ["@ + bytes_shown(
                found@,
                8,
            ) + "])"@,
        }
    }

    /// What the error says.
    pub fn message(&self) -> (text: String)
        ensures
            text@ == self.wording(),
    {
        match self {
            FormatError::Unstamped => {
                "this database holds facts but carries no format stamp, so nothing says which encoding wrote it".to_owned()
            },
            FormatError::Unreadable { found, current } => {
                let mut text: String = "this database is format ".to_owned();
                push_decimal(&mut text, found.0 as u64);
                text.append("; this build reads format ");
                push_decimal(&mut text, current.0 as u64);
                text
            },
            FormatError::Truncated { len, expected } => {
                let mut text: String = "the format stamp is ".to_owned();
                push_decimal(&mut text, *len as u64);
                text.append(" bytes, not ");
                push_decimal(&mut text, *expected as u64);
                text
            },
            FormatError::BadMagic { found } => {
                let mut text: String =
                    "the format stamp does not begin with the Aperture magic (found [".to_owned();
                let ghost start = text@;
                let mut k: usize = 0;
                proof {
                    assert(start + bytes_shown(found@, 0) =~= start);
                }
                while k < 8
                    invariant
                        k <= 8,
                        text@ == start + bytes_shown(found@, k as nat),
                    decreases 8 - k,
                {
                    let ghost before = text@;
                    if k > 0 {
                        text.append(", ");
                    }
                    push_decimal(&mut text, found[k] as u64);
                    proof {
                        assert(text@ =~= start + bytes_shown(found@, (k + 1) as nat));
                    }
                    k += 1;
                }
                text.append("])");
                text
            },
        }
    }
}

/// `fjall::Error`'s own text. What the backend words is the backend's: nothing is said
/// of it here.
#[verifier::external_body]
fn backend_text(error: &fjall::Error) -> String {
    error.to_string()
}

impl StoreError {
    /// What the error says; for a fault of the backend, what stands before its own words.
    pub open spec fn wording(self) -> Seq<char> {
        match self {
            StoreError::Backend(_) => "fjall: "@,
            StoreError::Format(error) => error.wording(),
            StoreError::Fact(error) => "cannot write this fact: "@ + error.wording(),
            StoreError::DanglingFactId(id) => "dangling fact id "@ + fact_shown(id)
                + ": key present but no entity in the `entities` column family"@,
            StoreError::FactIdWidth { len, expected } => "`keys` row value is "@ + text::decimal(
                len as nat,
            ) + " bytes, not an "@ + text::decimal(expected as nat) + "-byte fact id"@,
            StoreError::TruncatedEntity(id) => "`entities` row for "@ + fact_shown(id)
                + " is truncated"@,
            StoreError::ShortKeyRow { len, expected } => "`keys` row is "@ + text::decimal(
                len as nat,
            ) + " bytes, shorter than the "@ + text::decimal(expected as nat)
                + "-byte predicate prefix"@,
            StoreError::ShortScanBound { len, expected } => "scan bound is "@ + text::decimal(
                len as nat,
            ) + " bytes, shorter than the "@ + text::decimal(expected as nat)
                + "-byte predicate prefix"@,
            StoreError::Id(error) => error.wording(),
            StoreError::FactIdPredicateMismatch { expected, found } => "fact id "@ + fact_shown(
                found,
            ) + " is tagged predicate "@ + text::decimal(found.predicate_of()) + " but the fact is "@
                + predicate_shown(expected),
            StoreError::KeyAlreadyWritten { predicate, existing } => predicate_shown(predicate)
                + " already holds a different fact keyed the same way, as "@ + fact_shown(existing)
                + "; a key is written once"@,
        }
    }

    /// What the error says.
    pub fn message(&self) -> (text: String)
        ensures
            !(self is Backend) ==> text@ == self.wording(),
            self is Backend ==> exists|words: Seq<char>| text@ == #[trigger] (self.wording() + words),
    {
        match self {
            StoreError::Backend(error) => {
                let words: String = backend_text(error);
                let mut text: String = "fjall: ".to_owned();
                text.append(words.as_str());
                proof {
                    assert(text@ == self.wording() + words@);
                }
                text
            },
            StoreError::Format(error) => error.message(),
            StoreError::Fact(error) => {
                let mut text: String = "cannot write this fact: ".to_owned();
                text.append(error.message().as_str());
                text
            },
            StoreError::DanglingFactId(id) => {
                let mut text: String = "dangling fact id ".to_owned();
                push_fact(&mut text, *id);
                text.append(": key present but no entity in the `entities` column family");
                text
            },
            StoreError::FactIdWidth { len, expected } => {
                let mut text: String = "`keys` row value is ".to_owned();
                push_decimal(&mut text, *len as u64);
                text.append(" bytes, not an ");
                push_decimal(&mut text, *expected as u64);
                text.append("-byte fact id");
                text
            },
            StoreError::TruncatedEntity(id) => {
                let mut text: String = "`entities` row for ".to_owned();
                push_fact(&mut text, *id);
                text.append(" is truncated");
                text
            },
            StoreError::ShortKeyRow { len, expected } => {
                let mut text: String = "`keys` row is ".to_owned();
                push_decimal(&mut text, *len as u64);
                text.append(" bytes, shorter than the ");
                push_decimal(&mut text, *expected as u64);
                text.append("-byte predicate prefix");
                text
            },
            StoreError::ShortScanBound { len, expected } => {
                let mut text: String = "scan bound is ".to_owned();
                push_decimal(&mut text, *len as u64);
                text.append(" bytes, shorter than the ");
                push_decimal(&mut text, *expected as u64);
                text.append("-byte predicate prefix");
                text
            },
            StoreError::Id(error) => error.message(),
            StoreError::FactIdPredicateMismatch { expected, found } => {
                let mut text: String = "fact id ".to_owned();
                push_fact(&mut text, *found);
                text.append(" is tagged predicate ");
                push_decimal(&mut text, found.predicate().0 as u64);
                text.append(" but the fact is ");
                push_predicate(&mut text, *expected);
                text
            },
            StoreError::KeyAlreadyWritten { predicate, existing } => {
                let mut text: String = String::new();
                push_predicate(&mut text, *predicate);
                text.append(" already holds a different fact keyed the same way, as ");
                push_fact(&mut text, *existing);
                text.append("; a key is written once");
                proof {
                    assert(Seq::<char>::empty() + predicate_shown(*predicate)
                        =~= predicate_shown(*predicate));
                }
                text
            },
        }
    }
}

impl ApertureError {
    /// Whether the text ends in the storage backend's own words.
    pub open spec fn quotes_the_backend(self) -> bool {
        self matches ApertureError::Store(error) && error is Backend
    }

    /// What the error says; for a fault of the backend, what stands before its own words.
    pub open spec fn wording(self) -> Seq<char> {
        match self {
            ApertureError::Decode(error) => "decode error: "@ + error.wording(),
            ApertureError::UseBeforeBind(address) => address.shown()
                + " was read before anything was bound to it"@,
            ApertureError::SlotKindMismatch { address, wanted, held } => address.shown()
                + " holds "@ + held@ + " where the plan wanted "@ + wanted@,
            ApertureError::AddressOutOfBounds(address) => address.shown()
                + " is not a register in this plan"@,
            ApertureError::AdvanceAfterClose => "advance of closed frame"@,
            ApertureError::CursorPlanMismatch { cursor, plan } => "resume cursor names "@
                + text::decimal(cursor as nat) + " level(s) but the plan has "@ + text::decimal(
                plan as nat,
            ),
            ApertureError::CursorVersion { cursor, executor } => "resume cursor is version "@
                + text::decimal(cursor as nat) + "; this build reads version "@ + text::decimal(
                executor as nat,
            ),
            ApertureError::CursorPlan { cursor, plan } =>
                "resume cursor was built from a different plan ("@ + fingerprint_shown(cursor)
                    + ", not "@ + fingerprint_shown(plan) + ")"@,
            ApertureError::CursorSourceOutOfRange { index, sources } =>
                "resume cursor names source "@ + text::decimal(index as nat)
                    + " of a level with "@ + text::decimal(sources as nat),
            ApertureError::BadResumeKey => "resume key not found"@,
            ApertureError::NotARecord { step } => "a plan reads nested field "@ + text::decimal(
                step as nat,
            ) + " of a key field that is not a record"@,
            ApertureError::NestedFieldOutOfRange { step } => "a plan reads nested field "@
                + text::decimal(step as nat) + " of a record with fewer fields than that"@,
            ApertureError::ReferenceCrossesPredicate { expected, found } =>
                "a reference declared to name "@ + predicate_shown(expected) + " names "@
                    + predicate_shown(found) + ", whose key has a different shape"@,
            ApertureError::Cancelled => "operation cancelled"@,
            ApertureError::Store(error) => "store error: "@ + error.wording(),
        }
    }

    /// What the error says.
    pub fn message(&self) -> (text: String)
        ensures
            !self.quotes_the_backend() ==> text@ == self.wording(),
            self.quotes_the_backend() ==> exists|words: Seq<char>| text@ == #[trigger] (
            self.wording() + words),
    {
        match self {
            ApertureError::Decode(error) => {
                let mut text: String = "decode error: ".to_owned();
                text.append(error.message().as_str());
                text
            },
            ApertureError::UseBeforeBind(address) => {
                let mut text: String = address.text();
                text.append(" was read before anything was bound to it");
                text
            },
            ApertureError::SlotKindMismatch { address, wanted, held } => {
                let mut text: String = address.text();
                text.append(" holds ");
                text.append(held);
                text.append(" where the plan wanted ");
                text.append(wanted);
                text
            },
            ApertureError::AddressOutOfBounds(address) => {
                let mut text: String = address.text();
                text.append(" is not a register in this plan");
                text
            },
            ApertureError::AdvanceAfterClose => "advance of closed frame".to_owned(),
            ApertureError::CursorPlanMismatch { cursor, plan } => {
                let mut text: String = "resume cursor names ".to_owned();
                push_decimal(&mut text, *cursor as u64);
                text.append(" level(s) but the plan has ");
                push_decimal(&mut text, *plan as u64);
                text
            },
            ApertureError::CursorVersion { cursor, executor } => {
                let mut text: String = "resume cursor is version ".to_owned();
                push_decimal(&mut text, *cursor as u64);
                text.append("; this build reads version ");
                push_decimal(&mut text, *executor as u64);
                text
            },
            ApertureError::CursorPlan { cursor, plan } => {
                let mut text: String =
                    "resume cursor was built from a different plan (".to_owned();
                push_fingerprint(&mut text, *cursor);
                text.append(", not ");
                push_fingerprint(&mut text, *plan);
                text.append(")");
                text
            },
            ApertureError::CursorSourceOutOfRange { index, sources } => {
                let mut text: String = "resume cursor names source ".to_owned();
                push_decimal(&mut text, *index as u64);
                text.append(" of a level with ");
                push_decimal(&mut text, *sources as u64);
                text
            },
            ApertureError::BadResumeKey => "resume key not found".to_owned(),
            ApertureError::NotARecord { step } => {
                let mut text: String = "a plan reads nested field ".to_owned();
                push_decimal(&mut text, *step as u64);
                text.append(" of a key field that is not a record");
                text
            },
            ApertureError::NestedFieldOutOfRange { step } => {
                let mut text: String = "a plan reads nested field ".to_owned();
                push_decimal(&mut text, *step as u64);
                text.append(" of a record with fewer fields than that");
                text
            },
            ApertureError::ReferenceCrossesPredicate { expected, found } => {
                let mut text: String = "a reference declared to name ".to_owned();
                push_predicate(&mut text, *expected);
                text.append(" names ");
                push_predicate(&mut text, *found);
                text.append(", whose key has a different shape");
                text
            },
            ApertureError::Cancelled => "operation cancelled".to_owned(),
            ApertureError::Store(error) => {
                let words: String = error.message();
                let mut text: String = "store error: ".to_owned();
                text.append(words.as_str());
                proof {
                    if self.quotes_the_backend() {
                        let tail = choose|tail: Seq<char>| words@ == #[trigger] (error.wording()
                            + tail);
                        assert(text@ =~= self.wording() + tail);
                    }
                }
                text
            },
        }
    }
}

// ---- what is listed ---------------------------------------------------------

/// What is listed from the `k`th byte on.
spec fn shown_from(bytes: Seq<u8>, k: nat) -> Seq<char>
    decreases bytes.len() - k,
{
    if k < bytes.len() {
        (if k > 0 {
            ", "@
        } else {
            Seq::empty()
        }) + (text::decimal(bytes[k as int] as nat) + shown_from(bytes, k + 1))
    } else {
        Seq::empty()
    }
}

proof fn lemma_shown(bytes: Seq<u8>, k: nat)
    requires
        k <= bytes.len(),
    ensures
        bytes_shown(bytes, k) + shown_from(bytes, k) == shown_from(bytes, 0),
    decreases k,
{
    if k > 0 {
        lemma_shown(bytes, (k - 1) as nat);
        let before = bytes_shown(bytes, (k - 1) as nat);
        let sign = if k > 1 {
            ", "@
        } else {
            Seq::empty()
        };
        let one = text::decimal(bytes[k - 1] as nat);
        let rest = shown_from(bytes, k);
        assert(before + sign + one + rest =~= before + (sign + (one + rest)));
    } else {
        assert(Seq::<char>::empty() + shown_from(bytes, 0) =~= shown_from(bytes, 0));
    }
}

proof fn lemma_ends(bytes: Seq<u8>, k: nat)
    requires
        k > 0,
    ensures
        apart::stops(apart::a_digit(), shown_from(bytes, k)),
{
    reveal_strlit(", ");
    if k < bytes.len() {
        assert(shown_from(bytes, k)[0] == ',');
    }
}

proof fn lemma_some_shown(bytes: Seq<u8>, k: nat)
    ensures
        (k < bytes.len()) == (shown_from(bytes, k).len() > 0),
{
    if k < bytes.len() {
        lexer::lemma_decimal(bytes[k as int] as nat);
    }
}

proof fn lemma_told_from(a: Seq<u8>, b: Seq<u8>, k: nat)
    requires
        k <= a.len(),
        k <= b.len(),
        shown_from(a, k) == shown_from(b, k),
    ensures
        a.skip(k as int) == b.skip(k as int),
    decreases a.len() - k,
{
    lemma_some_shown(a, k);
    lemma_some_shown(b, k);
    if k < a.len() {
        let sign = if k > 0 {
            ", "@
        } else {
            Seq::empty()
        };
        let (s, t) = (shown_from(a, k + 1), shown_from(b, k + 1));
        let (m, n) = (a[k as int] as nat, b[k as int] as nat);
        apart::lemma_strip(sign, text::decimal(m) + s, text::decimal(n) + t);
        lemma_ends(a, k + 1);
        lemma_ends(b, k + 1);
        apart::lemma_decimals(m, n, s, t);
        lemma_told_from(a, b, k + 1);
        assert(a.skip(k as int) =~= seq![a[k as int]] + a.skip(k as int + 1));
        assert(b.skip(k as int) =~= seq![b[k as int]] + b.skip(k as int + 1));
    } else {
        assert(a.skip(k as int) =~= b.skip(k as int));
    }
}

/// Bytes are told apart by how they are listed: every one of them is.
pub proof fn law_listed_bytes_are_told_apart(a: Seq<u8>, b: Seq<u8>)
    requires
        bytes_shown(a, a.len()) == bytes_shown(b, b.len()),
    ensures
        a == b,
{
    lemma_shown(a, a.len());
    lemma_shown(b, b.len());
    assert(bytes_shown(a, a.len()) + Seq::<char>::empty() =~= bytes_shown(a, a.len()));
    assert(bytes_shown(b, b.len()) + Seq::<char>::empty() =~= bytes_shown(b, b.len()));
    lemma_told_from(a, b, 0);
    assert(a.skip(0) =~= a);
    assert(b.skip(0) =~= b);
}

} // verus!
