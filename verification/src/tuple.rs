//! The codec of stored keys and values: self-delimiting, and sorting as the values do.
//!
//! A value begins with a mark saying what it is. An integer is its eight bytes, most
//! significant first, with the sign turned so that negative numbers sort first; a
//! reference is the eight bytes of its id. A string is its UTF-8 bytes up to a
//! terminator, which no byte inside it is: the two lowest bytes are escaped. A record is
//! its fields back to back, up to a terminator. No value's bytes begin another's.
pub mod decoding;

use vstd::prelude::*;
use vstd::utf8::*;

use crate::bytes;
use crate::error::{ApertureError, BadUtf8, StoreCodecError};
use crate::plan::{FactId, Route};
use crate::schema::{LocalInterner, NameKey, Names, PredicateTy, Symbol};

verus! {

/// Ends a string or a record.
pub const MARK_TERM: u8 = 0x00;

/// Begins a string.
pub const MARK_STR: u8 = 0x02;

/// Begins a record.
pub const MARK_RECORD: u8 = 0x05;

/// Begins an integer.
pub const MARK_INT: u8 = 0x15;

/// Begins a reference to a fact.
pub const MARK_FACT: u8 = 0x16;

/// Stands in a string for one of the two lowest bytes, which the byte behind it tells
/// apart.
pub const ESCAPE: u8 = 0x01;

// ---- values -----------------------------------------------------------------

/// A decoded value.
#[derive(Debug, PartialEq, Eq, PartialOrd, Ord)]
pub enum Value {
    Int(i64),
    Str(String),
    FactRef(FactId),
    Record(Vec<(String, Value)>),
}

/// What a [`Value`] is: the value as mathematics sees it.
pub enum Datum {
    Int(i64),
    Str(Seq<char>),
    FactRef(FactId),
    Record(Seq<(Seq<char>, Datum)>),
}

impl Value {
    pub open spec fn datum(self) -> Datum
        decreases self,
    {
        match self {
            Value::Int(v) => Datum::Int(v),
            Value::Str(s) => Datum::Str(s@),
            Value::FactRef(id) => Datum::FactRef(id),
            Value::Record(fields) => Datum::Record(
                Seq::new(
                    fields@.len(),
                    |i: int|
                        if 0 <= i < fields@.len() {
                            (fields@[i].0@, fields@[i].1.datum())
                        } else {
                            arbitrary()
                        },
                ),
            ),
        }
    }

    /// A copy.
    pub fn duplicate(&self) -> (copy: Value)
        ensures
            copy.datum() == self.datum(),
        decreases *self,
    {
        match self {
            Value::Int(v) => Value::Int(*v),
            Value::Str(s) => Value::Str(s.clone()),
            Value::FactRef(id) => Value::FactRef(*id),
            Value::Record(fields) => {
                let mut out: Vec<(String, Value)> = Vec::new();
                let mut i: usize = 0;
                while i < fields.len()
                    invariant
                        *self == Value::Record(*fields),
                        i <= fields@.len(),
                        out@.len() == i,
                        forall|j: int|
                            0 <= j < i ==> (#[trigger] out@[j]).0@ == fields@[j].0@
                                && out@[j].1.datum() == fields@[j].1.datum(),
                    decreases fields@.len() - i,
                {
                    let name = fields[i].0.clone();
                    proof {
                        assert(decreases_to!(*self => (*self)->Record_0));
                        assert((*self)->Record_0 == *fields);
                        assert(decreases_to!(*fields => fields@));
                        assert(decreases_to!(fields@ => fields@[i as int]));
                        assert(decreases_to!(fields@[i as int] => fields@[i as int].1));
                    }
                    let value = fields[i].1.duplicate();
                    out.push((name, value));
                    i += 1;
                }
                let copy = Value::Record(out);
                proof {
                    assert(copy.datum()->Record_0 =~= self.datum()->Record_0);
                }
                copy
            },
        }
    }
}

// ---- encoding ---------------------------------------------------------------

/// The last `n` bytes of `x`, most significant first.
pub open spec fn big_endian(x: nat, n: nat) -> Seq<u8>
    decreases n,
{
    if n == 0 {
        Seq::empty()
    } else {
        big_endian(x / 256, (n - 1) as nat).push((x % 256) as u8)
    }
}

/// The number whose bytes are `s`, most significant first.
pub open spec fn of_big_endian(s: Seq<u8>) -> nat
    decreases s.len(),
{
    if s.len() == 0 {
        0
    } else {
        of_big_endian(s.drop_last()) * 256 + s.last() as nat
    }
}

/// `256` to the `n`.
pub open spec fn pow256(n: nat) -> nat
    decreases n,
{
    if n == 0 {
        1
    } else {
        256 * pow256((n - 1) as nat)
    }
}

/// An integer as the unsigned number whose order is its own.
pub open spec fn biased(v: i64) -> nat {
    (v + 0x8000_0000_0000_0000) as nat
}

/// An integer's encoding.
pub open spec fn enc_i64(v: i64) -> Seq<u8> {
    seq![MARK_INT] + big_endian(biased(v), 8)
}

/// A reference's encoding.
pub open spec fn enc_fact(id: FactId) -> Seq<u8> {
    seq![MARK_FACT] + big_endian(id.bits() as nat, 8)
}

/// A string's bytes, the two lowest escaped.
pub open spec fn escaped(s: Seq<u8>) -> Seq<u8>
    decreases s.len(),
{
    if s.len() == 0 {
        Seq::empty()
    } else {
        escaped(s.drop_last()) + escaped_byte(s.last())
    }
}

pub open spec fn escaped_byte(b: u8) -> Seq<u8> {
    if b <= ESCAPE {
        seq![ESCAPE, (b + 1) as u8]
    } else {
        seq![b]
    }
}

/// The bytes every string beginning with `s` begins with.
pub open spec fn enc_str_prefix(s: Seq<char>) -> Seq<u8> {
    seq![MARK_STR] + escaped(encode_utf8(s))
}

/// A string's encoding.
pub open spec fn enc_str(s: Seq<char>) -> Seq<u8> {
    enc_str_prefix(s).push(MARK_TERM)
}

/// A value's encoding, inside a field. A record keeps its wrapper.
pub open spec fn enc(d: Datum) -> Seq<u8>
    decreases d,
{
    match d {
        Datum::Int(v) => enc_i64(v),
        Datum::Str(s) => enc_str(s),
        Datum::FactRef(id) => enc_fact(id),
        Datum::Record(fields) => seq![MARK_RECORD] + enc_fields(
            fields.map_values(|f: (Seq<char>, Datum)| f.1),
            d,
        ) + seq![MARK_TERM],
    }
}

/// The encodings of `values` back to back, where each is a part of `whole`.
pub open spec fn enc_fields(values: Seq<Datum>, whole: Datum) -> Seq<u8>
    decreases whole, values.len(),
{
    if values.len() == 0 {
        Seq::empty()
    } else {
        enc_fields(values.drop_last(), whole) + (if decreases_to!(whole => values.last()) {
            enc(values.last())
        } else {
            Seq::empty()
        })
    }
}

/// `n` bytes are written.
pub proof fn lemma_big_endian_len(x: nat, n: nat)
    ensures
        big_endian(x, n).len() == n,
    decreases n,
{
    if n > 0 {
        lemma_big_endian_len(x / 256, (n - 1) as nat);
    }
}

pub(crate) fn put_big_endian(out: &mut Vec<u8>, x: u64, n: u8)
    ensures
        final(out)@ == old(out)@ + big_endian(x as nat, n as nat),
    decreases n,
{
    if n > 0 {
        put_big_endian(out, x / 256, n - 1);
        out.push((x % 256) as u8);
    }
    proof {
        assert(out@ =~= old(out)@ + big_endian(x as nat, n as nat));
    }
}

/// Append an integer's encoding.
pub fn put_i64(out: &mut Vec<u8>, v: i64)
    ensures
        final(out)@ == old(out)@ + enc_i64(v),
{
    let turned: u64 = (v as i128 + 0x8000_0000_0000_0000) as u64;
    out.push(MARK_INT);
    put_big_endian(out, turned, 8);
    proof {
        assert(out@ =~= old(out)@ + enc_i64(v));
    }
}

/// Append a reference's encoding.
pub fn put_fact_id(out: &mut Vec<u8>, id: FactId)
    ensures
        final(out)@ == old(out)@ + enc_fact(id),
{
    out.push(MARK_FACT);
    put_big_endian(out, id.raw(), 8);
    proof {
        assert(out@ =~= old(out)@ + enc_fact(id));
    }
}

/// Append a string's encoding without its terminator.
fn put_str_prefix(out: &mut Vec<u8>, s: &str)
    ensures
        final(out)@ == old(out)@ + enc_str_prefix(s@),
{
    let bytes: &[u8] = s.as_bytes();
    out.push(MARK_STR);
    let mut i: usize = 0;
    let ghost start = out@;
    while i < bytes.len()
        invariant
            i <= bytes@.len(),
            out@ == start + escaped(bytes@.take(i as int)),
        decreases bytes@.len() - i,
    {
        proof {
            assert(bytes@.take(i + 1).drop_last() =~= bytes@.take(i as int));
        }
        if bytes[i] <= ESCAPE {
            out.push(ESCAPE);
            out.push(bytes[i] + 1);
        } else {
            out.push(bytes[i]);
        }
        proof {
            assert(out@ =~= start + escaped(bytes@.take(i + 1)));
        }
        i += 1;
    }
    proof {
        assert(bytes@.take(i as int) =~= bytes@);
        assert(out@ =~= old(out)@ + enc_str_prefix(s@));
    }
}

/// Append a string's encoding.
pub fn put_str(out: &mut Vec<u8>, s: &str)
    ensures
        final(out)@ == old(out)@ + enc_str(s@),
{
    put_str_prefix(out, s);
    out.push(MARK_TERM);
    proof {
        assert(out@ =~= old(out)@ + enc_str(s@));
    }
}

// ---- walking ----------------------------------------------------------------

/// The contents of the string whose bytes begin at `at`, and where it ends.
pub open spec fn read_str(b: Seq<u8>, at: nat) -> Result<(Seq<u8>, nat), StoreCodecError>
    decreases b.len() - at,
{
    if at >= b.len() {
        Err(StoreCodecError::UnexpectedEof)
    } else if b[at as int] == MARK_TERM {
        Ok((Seq::empty(), at + 1))
    } else if b[at as int] != ESCAPE {
        match read_str(b, at + 1) {
            Ok((rest, end)) => Ok((seq![b[at as int]] + rest, end)),
            Err(e) => Err(e),
        }
    } else if at + 1 >= b.len() {
        Err(StoreCodecError::UnexpectedEof)
    } else if 1 <= b[(at + 1) as int] <= 2 {
        match read_str(b, at + 2) {
            Ok((rest, end)) => Ok((seq![(b[(at + 1) as int] - 1) as u8] + rest, end)),
            Err(e) => Err(e),
        }
    } else {
        Err(StoreCodecError::UnexpectedMark(b[(at + 1) as int]))
    }
}

/// Where the value that begins at `at` ends.
pub open spec fn skipped(b: Seq<u8>, at: nat) -> Result<nat, StoreCodecError>
    decreases b.len() - at, 1nat,
{
    if at >= b.len() {
        Err(StoreCodecError::UnexpectedEof)
    } else if b[at as int] == MARK_INT || b[at as int] == MARK_FACT {
        if at + 9 <= b.len() {
            Ok(at + 9)
        } else {
            Err(StoreCodecError::UnexpectedEof)
        }
    } else if b[at as int] == MARK_STR {
        match read_str(b, at + 1) {
            Ok((_, end)) => Ok(end),
            Err(e) => Err(e),
        }
    } else if b[at as int] == MARK_RECORD {
        skipped_fields(b, at + 1)
    } else if b[at as int] == MARK_TERM {
        Err(StoreCodecError::UnexpectedTerminator)
    } else {
        Err(StoreCodecError::UnexpectedMark(b[at as int]))
    }
}

/// Where the record whose remaining fields begin at `at` ends.
pub open spec fn skipped_fields(b: Seq<u8>, at: nat) -> Result<nat, StoreCodecError>
    decreases b.len() - at, 2nat,
{
    if at >= b.len() {
        Err(StoreCodecError::UnexpectedEof)
    } else if b[at as int] == MARK_TERM {
        Ok(at + 1)
    } else {
        match skipped(b, at) {
            Ok(end) => if at < end <= b.len() {
                skipped_fields(b, end)
            } else {
                Err(StoreCodecError::BadRecord)
            },
            Err(e) => Err(e),
        }
    }
}

proof fn lemma_read_str_end(b: Seq<u8>, at: nat)
    ensures
        read_str(b, at) matches Ok((_, end)) ==> at < end <= b.len(),
    decreases b.len() - at,
{
    if at < b.len() {
        if b[at as int] != ESCAPE {
            lemma_read_str_end(b, at + 1);
        } else if at + 1 < b.len() {
            lemma_read_str_end(b, at + 2);
        }
    }
}

/// A value takes at least its mark, and ends within the bytes.
pub proof fn lemma_skipped_end(b: Seq<u8>, at: nat)
    ensures
        skipped(b, at) matches Ok(end) ==> at < end <= b.len(),
    decreases b.len() - at, 1nat,
{
    if at < b.len() {
        lemma_read_str_end(b, at + 1);
        if b[at as int] == MARK_RECORD {
            lemma_skipped_fields_end(b, at + 1);
        }
    }
}

proof fn lemma_skipped_fields_end(b: Seq<u8>, at: nat)
    ensures
        skipped_fields(b, at) matches Ok(end) ==> at < end <= b.len(),
    decreases b.len() - at, 2nat,
{
    if at < b.len() && b[at as int] != MARK_TERM {
        lemma_skipped_end(b, at);
        if let Ok(end) = skipped(b, at) {
            lemma_skipped_fields_end(b, end);
        }
    }
}

fn skip_str(b: &[u8], start: usize) -> (end: Result<usize, StoreCodecError>)
    requires
        start <= b@.len(),
    ensures
        match (end, read_str(b@, start as nat)) {
            (Ok(e), Ok((_, expected))) => e == expected,
            (Err(e), Err(expected)) => e == expected,
            _ => false,
        },
{
    let mut at: usize = start;
    while at < b.len()
        invariant
            start <= at <= b@.len(),
            match (read_str(b@, start as nat), read_str(b@, at as nat)) {
                (Ok((_, x)), Ok((_, y))) => x == y,
                (Err(x), Err(y)) => x == y,
                _ => false,
            },
        decreases b@.len() - at,
    {
        if b[at] == MARK_TERM {
            return Ok(at + 1);
        } else if b[at] != ESCAPE {
            at += 1;
        } else if at + 1 >= b.len() {
            return Err(StoreCodecError::UnexpectedEof);
        } else if b[at + 1] == 1 || b[at + 1] == 2 {
            at += 2;
        } else {
            return Err(StoreCodecError::UnexpectedMark(b[at + 1]));
        }
    }
    Err(StoreCodecError::UnexpectedEof)
}

/// Where the value that begins at `start` ends. Nothing is decoded: the marks say how
/// far each value reaches.
pub fn skip(b: &[u8], start: usize) -> (end: Result<usize, StoreCodecError>)
    requires
        start <= b@.len(),
    ensures
        match (end, skipped(b@, start as nat)) {
            (Ok(e), Ok(expected)) => e == expected && start < e <= b@.len(),
            (Err(e), Err(expected)) => e == expected,
            _ => false,
        },
    decreases b@.len() - start,
{
    proof {
        lemma_skipped_end(b@, start as nat);
    }
    if start >= b.len() {
        return Err(StoreCodecError::UnexpectedEof);
    }
    let mark: u8 = b[start];
    if mark == MARK_INT || mark == MARK_FACT {
        if b.len() - start >= 9 {
            return Ok(start + 9);
        }
        return Err(StoreCodecError::UnexpectedEof);
    }
    if mark == MARK_STR {
        return skip_str(b, start + 1);
    }
    if mark == MARK_TERM {
        return Err(StoreCodecError::UnexpectedTerminator);
    }
    if mark != MARK_RECORD {
        return Err(StoreCodecError::UnexpectedMark(mark));
    }
    let mut at: usize = start + 1;
    while at < b.len()
        invariant
            start < at <= b@.len(),
            b@[start as int] == MARK_RECORD,
            skipped(b@, start as nat) == skipped_fields(b@, at as nat),
        decreases b@.len() - at,
    {
        if b[at] == MARK_TERM {
            return Ok(at + 1);
        }
        match skip(b, at) {
            Ok(end) => {
                at = end;
            },
            Err(e) => {
                return Err(e);
            },
        }
    }
    Err(StoreCodecError::UnexpectedEof)
}

// ---- fields -----------------------------------------------------------------

/// Where top-level field `n` of a key begins: after the `n` before it.
pub open spec fn field_start(key: Seq<u8>, n: nat) -> Result<nat, StoreCodecError>
    decreases n,
{
    if n == 0 {
        Ok(0)
    } else {
        match field_start(key, (n - 1) as nat) {
            Ok(at) => skipped(key, at),
            Err(e) => Err(e),
        }
    }
}

/// The bytes top-level field `n` of a key takes.
pub open spec fn field_span(key: Seq<u8>, n: nat) -> Result<(nat, nat), StoreCodecError> {
    match (field_start(key, n), field_start(key, n + 1)) {
        (Ok(start), Ok(end)) => Ok((start, end)),
        (Err(e), _) => Err(e),
        (_, Err(e)) => Err(e),
    }
}

/// Fields lie within the key, in order.
pub proof fn lemma_field_start(key: Seq<u8>, n: nat)
    ensures
        field_start(key, n) matches Ok(at) ==> n <= at <= key.len(),
        field_span(key, n) matches Ok((start, end)) ==> n <= start < end <= key.len(),
    decreases n,
{
    if n > 0 {
        lemma_field_start(key, (n - 1) as nat);
        if let Ok(at) = field_start(key, (n - 1) as nat) {
            lemma_skipped_end(key, at);
        }
    }
    if let Ok(at) = field_start(key, n) {
        lemma_skipped_end(key, at);
    }
}

/// Where top-level field `idx` of a key begins and ends.
pub fn field_range(key: &[u8], idx: usize) -> (span: Result<(usize, usize), StoreCodecError>)
    ensures
        match (span, field_span(key@, idx as nat)) {
            (Ok((start, end)), Ok(expected)) => (start as nat, end as nat) == expected && start
                < end <= key@.len(),
            (Err(e), Err(expected)) => e == expected,
            _ => false,
        },
{
    let mut start: usize = 0;
    let mut i: usize = 0;
    while i < idx
        invariant
            i <= idx,
            start <= key@.len(),
            field_start(key@, i as nat) == Ok::<nat, StoreCodecError>(start as nat),
        decreases idx - i,
    {
        match skip(key, start) {
            Ok(end) => {
                start = end;
            },
            Err(e) => {
                proof {
                    lemma_field_start_fails(key@, (i + 1) as nat, idx as nat);
                }
                return Err(e);
            },
        }
        i += 1;
    }
    match skip(key, start) {
        Ok(end) => Ok((start, end)),
        Err(e) => Err(e),
    }
}

/// Past a field that cannot be skipped, no field begins.
pub proof fn lemma_field_start_fails(key: Seq<u8>, n: nat, m: nat)
    requires
        n <= m,
        field_start(key, n) is Err,
    ensures
        field_start(key, m) == field_start(key, n),
    decreases m,
{
    if n < m {
        lemma_field_start_fails(key, n, (m - 1) as nat);
    }
}

// ---- nested fields ----------------------------------------------------------

/// Where member `n` begins in the record whose remaining members begin at `at`; `step`
/// is the member the path asked for.
pub open spec fn member_start(b: Seq<u8>, at: nat, n: nat, step: usize) -> Result<
    nat,
    ApertureError,
>
    decreases n,
{
    if at >= b.len() {
        Err(ApertureError::Decode(StoreCodecError::UnexpectedEof))
    } else if b[at as int] == MARK_TERM {
        Err(ApertureError::NestedFieldOutOfRange { step })
    } else if n == 0 {
        Ok(at)
    } else {
        match skipped(b, at) {
            Ok(end) => member_start(b, end, (n - 1) as nat, step),
            Err(e) => Err(ApertureError::Decode(e)),
        }
    }
}

/// The bytes member `step` takes of the value that begins at `at`.
pub open spec fn member_span(b: Seq<u8>, at: nat, step: usize) -> Result<
    (nat, nat),
    ApertureError,
> {
    if at < b.len() && b[at as int] == MARK_RECORD {
        match member_start(b, at + 1, step as nat, step) {
            Ok(start) => match skipped(b, start) {
                Ok(end) => Ok((start, end)),
                Err(e) => Err(ApertureError::Decode(e)),
            },
            Err(e) => Err(e),
        }
    } else {
        Err(ApertureError::NotARecord { step })
    }
}

/// The bytes `steps` lead to inside the value that takes `span`, taking the first `k`
/// of them.
pub open spec fn nested_span(b: Seq<u8>, span: (nat, nat), steps: Seq<usize>, k: nat) -> Result<
    (nat, nat),
    ApertureError,
>
    decreases k,
{
    if k == 0 {
        Ok(span)
    } else {
        match nested_span(b, span, steps, (k - 1) as nat) {
            Ok((start, _)) => member_span(b, start, steps[k - 1]),
            Err(e) => Err(e),
        }
    }
}

/// The bytes a path names in a stored key.
pub open spec fn path_span(key: Seq<u8>, path: Route) -> Result<(nat, nat), ApertureError> {
    match field_span(key, path.top() as nat) {
        Ok(span) => nested_span(key, span, path.inner(), path.inner().len()),
        Err(e) => Err(ApertureError::Decode(e)),
    }
}

/// The value a path names in a stored key, encoded.
pub open spec fn path_bytes(key: Seq<u8>, path: Route) -> Result<Seq<u8>, ApertureError> {
    match path_span(key, path) {
        Ok((start, end)) => Ok(key.subrange(start as int, end as int)),
        Err(e) => Err(e),
    }
}

/// A path that names nothing is a fault in the bytes, or in the path.
pub proof fn lemma_path_errors(key: Seq<u8>, path: Route)
    ensures
        path_bytes(key, path) matches Err(e) ==> e is Decode || e is NotARecord || e
            is NestedFieldOutOfRange,
{
    if let Ok(span) = field_span(key, path.top() as nat) {
        lemma_nested_errors(key, span, path.inner(), path.inner().len());
    }
}

proof fn lemma_nested_errors(b: Seq<u8>, span: (nat, nat), steps: Seq<usize>, k: nat)
    ensures
        nested_span(b, span, steps, k) matches Err(e) ==> e is Decode || e is NotARecord || e
            is NestedFieldOutOfRange,
    decreases k,
{
    if k > 0 {
        lemma_nested_errors(b, span, steps, (k - 1) as nat);
        if let Ok((at, _)) = nested_span(b, span, steps, (k - 1) as nat) {
            lemma_member_errors(b, at + 1, steps[k - 1] as nat, steps[k - 1]);
        }
    }
}

proof fn lemma_member_errors(b: Seq<u8>, at: nat, n: nat, step: usize)
    ensures
        member_start(b, at, n, step) matches Err(e) ==> e is Decode || e is NotARecord || e
            is NestedFieldOutOfRange,
    decreases n,
{
    if n > 0 && at < b.len() && b[at as int] != MARK_TERM {
        if let Ok(end) = skipped(b, at) {
            lemma_member_errors(b, end, (n - 1) as nat, step);
        }
    }
}

proof fn lemma_member_start(b: Seq<u8>, at: nat, n: nat, step: usize)
    ensures
        member_start(b, at, n, step) matches Ok(start) ==> at <= start < b.len(),
    decreases n,
{
    if n > 0 && at < b.len() && b[at as int] != MARK_TERM {
        lemma_skipped_end(b, at);
        if let Ok(end) = skipped(b, at) {
            lemma_member_start(b, end, (n - 1) as nat, step);
        }
    }
}

proof fn lemma_nested_fails(b: Seq<u8>, span: (nat, nat), steps: Seq<usize>, k: nat, n: nat)
    requires
        k <= n,
        nested_span(b, span, steps, k) is Err,
    ensures
        nested_span(b, span, steps, n) == nested_span(b, span, steps, k),
    decreases n,
{
    if k < n {
        lemma_nested_fails(b, span, steps, k, (n - 1) as nat);
    }
}

/// Where member `step` of the value that begins at `at` begins and ends.
fn member(b: &[u8], at: usize, step: usize) -> (span: Result<(usize, usize), ApertureError>)
    requires
        at < b@.len(),
    ensures
        match (span, member_span(b@, at as nat, step)) {
            (Ok((start, end)), Ok(expected)) => (start as nat, end as nat) == expected && start
                < end <= b@.len(),
            (Err(e), Err(expected)) => e == expected,
            _ => false,
        },
{
    if b[at] != MARK_RECORD {
        return Err(ApertureError::NotARecord { step });
    }
    let mut start: usize = at + 1;
    let mut left: usize = step;
    loop
        invariant
            at < start <= b@.len(),
            left <= step,
            b@[at as int] == MARK_RECORD,
            member_start(b@, at as nat + 1, step as nat, step) == member_start(
                b@,
                start as nat,
                left as nat,
                step,
            ),
        decreases left,
    {
        if start >= b.len() {
            return Err(ApertureError::Decode(StoreCodecError::UnexpectedEof));
        }
        if b[start] == MARK_TERM {
            return Err(ApertureError::NestedFieldOutOfRange { step });
        }
        match skip(b, start) {
            Ok(end) => {
                if left == 0 {
                    return Ok((start, end));
                }
                start = end;
                left -= 1;
            },
            Err(e) => {
                return Err(ApertureError::Decode(e));
            },
        }
    }
}

/// Where the value `steps` lead to begins and ends, inside the one that begins at
/// `start` and ends at `end`.
pub fn nested_range(b: &[u8], start: usize, end: usize, steps: &[usize]) -> (span: Result<
    (usize, usize),
    ApertureError,
>)
    requires
        start < end <= b@.len(),
    ensures
        match (
            span,
            nested_span(b@, (start as nat, end as nat), steps@, steps@.len()),
        ) {
            (Ok((from, to)), Ok(expected)) => (from as nat, to as nat) == expected && from < to
                <= b@.len(),
            (Err(e), Err(expected)) => e == expected,
            _ => false,
        },
{
    let mut from: usize = start;
    let mut to: usize = end;
    let mut k: usize = 0;
    while k < steps.len()
        invariant
            k <= steps@.len(),
            from < to <= b@.len(),
            nested_span(b@, (start as nat, end as nat), steps@, k as nat) == Ok::<
                (nat, nat),
                ApertureError,
            >((from as nat, to as nat)),
        decreases steps@.len() - k,
    {
        match member(b, from, steps[k]) {
            Ok((inner, past)) => {
                from = inner;
                to = past;
            },
            Err(e) => {
                proof {
                    lemma_nested_fails(
                        b@,
                        (start as nat, end as nat),
                        steps@,
                        (k + 1) as nat,
                        steps@.len(),
                    );
                }
                return Err(e);
            },
        }
        k += 1;
    }
    Ok((from, to))
}

// ---- decoding ---------------------------------------------------------------

/// Past the mark `wanted` at `at`, or why there is no such mark there.
pub open spec fn past_mark(b: Seq<u8>, at: nat, wanted: u8) -> Result<nat, StoreCodecError> {
    if at >= b.len() {
        Err(StoreCodecError::UnexpectedEof)
    } else if b[at as int] == wanted {
        Ok(at + 1)
    } else if b[at as int] == MARK_TERM {
        Err(StoreCodecError::UnexpectedTerminator)
    } else {
        Err(StoreCodecError::UnexpectedMark(b[at as int]))
    }
}

/// The eight bytes at `at` as a number, and the place past them.
pub open spec fn eight_bytes(b: Seq<u8>, at: nat) -> Result<(nat, nat), StoreCodecError> {
    if at + 8 <= b.len() {
        Ok((of_big_endian(b.subrange(at as int, (at + 8) as int)), at + 8))
    } else {
        Err(StoreCodecError::UnexpectedEof)
    }
}

/// The value of type `ty` at `at`, and where it ends.
pub open spec fn decoded(names: Names, b: Seq<u8>, at: nat, ty: PredicateTy) -> Result<
    (Datum, nat),
    StoreCodecError,
>
    decreases ty, 1nat, 0nat,
{
    match ty {
        PredicateTy::Int => match past_mark(b, at, MARK_INT) {
            Ok(from) => match eight_bytes(b, from) {
                Ok((bits, end)) => Ok((Datum::Int((bits - 0x8000_0000_0000_0000) as i64), end)),
                Err(e) => Err(e),
            },
            Err(e) => Err(e),
        },
        PredicateTy::Str => match past_mark(b, at, MARK_STR) {
            Ok(from) => match read_str(b, from) {
                Ok((raw, end)) => if valid_utf8(raw) {
                    Ok((Datum::Str(decode_utf8(raw)), end))
                } else {
                    Err(StoreCodecError::BadString(bad_utf8(raw)))
                },
                Err(e) => Err(e),
            },
            Err(e) => Err(e),
        },
        PredicateTy::Fact(expected) => match past_mark(b, at, MARK_FACT) {
            Ok(from) => match eight_bytes(b, from) {
                Ok((bits, end)) => {
                    let id = FactId::of_bits(bits as u64);
                    if id.sequence_of() == 0 {
                        Err(StoreCodecError::ReservedFactId)
                    } else if id.predicate_of() != expected.0 {
                        Err(
                            StoreCodecError::FactRefPredicate {
                                expected: expected.0,
                                found: id.predicate_of() as u32,
                            },
                        )
                    } else {
                        Ok((Datum::FactRef(id), end))
                    }
                },
                Err(e) => Err(e),
            },
            Err(e) => Err(e),
        },
        PredicateTy::Record(fields) => match past_mark(b, at, MARK_RECORD) {
            Ok(from) => match decoded_fields(names, b, from, fields@, fields@.len(), ty) {
                Ok((found, end)) => if end >= b.len() {
                    Err(StoreCodecError::UnexpectedEof)
                } else if b[end as int] == MARK_TERM {
                    Ok((Datum::Record(found), end + 1))
                } else {
                    Err(StoreCodecError::BadRecord)
                },
                Err(e) => Err(e),
            },
            Err(e) => Err(e),
        },
    }
}

/// The first `k` fields of a record of type `whole`, and where they end.
pub open spec fn decoded_fields(
    names: Names,
    b: Seq<u8>,
    at: nat,
    fields: Seq<(NameKey, PredicateTy)>,
    k: nat,
    whole: PredicateTy,
) -> Result<(Seq<(Seq<char>, Datum)>, nat), StoreCodecError>
    decreases whole, 0nat, k,
{
    if k == 0 {
        Ok((Seq::empty(), at))
    } else {
        match decoded_fields(names, b, at, fields, (k - 1) as nat, whole) {
            Ok((before, from)) => {
                let (key, ty) = fields[k - 1];
                match names.text(Symbol::Schema(key)) {
                    Some(name) => if decreases_to!(whole => ty) {
                        match decoded(names, b, from, ty) {
                            Ok((value, end)) => Ok((before.push((name, value)), end)),
                            Err(e) => Err(e),
                        }
                    } else {
                        Err(StoreCodecError::BadRecord)
                    },
                    None => Err(StoreCodecError::UnknownSymbol(Symbol::Schema(key))),
                }
            },
            Err(e) => Err(e),
        }
    }
}

/// How long the sequence is that keeps some bytes from being UTF-8, as `String::from_utf8`
/// reports it; nothing where they only end too early.
pub uninterp spec fn utf8_error_len(bytes: Seq<u8>) -> Option<usize>;

/// The most of the first `k` bytes, from the front, that are UTF-8.
pub open spec fn valid_up_to(bytes: Seq<u8>, k: nat) -> nat
    decreases k,
{
    if k == 0 || valid_utf8(bytes.take(k as int)) {
        k
    } else {
        valid_up_to(bytes, (k - 1) as nat)
    }
}

/// Why some bytes are not UTF-8.
pub open spec fn bad_utf8(bytes: Seq<u8>) -> BadUtf8 {
    BadUtf8 {
        valid_up_to: valid_up_to(bytes, bytes.len()) as usize,
        error_len: utf8_error_len(bytes),
    }
}

/// `String::from_utf8`: the string whose bytes these are, if they are UTF-8; else the
/// greatest number of bytes from the front that are, as `Utf8Error::valid_up_to` says it,
/// and the length `Utf8Error::error_len` gives.
#[verifier::external_body]
fn text_of(raw: Vec<u8>) -> (text: Result<String, BadUtf8>)
    ensures
        match text {
            Ok(s) => valid_utf8(raw@) && s@ == decode_utf8(raw@),
            Err(bad) => {
                &&& !valid_utf8(raw@)
                &&& bad.valid_up_to == valid_up_to(raw@, raw@.len())
                &&& bad.error_len == utf8_error_len(raw@)
            },
        },
{
    match String::from_utf8(raw) {
        Ok(text) => Ok(text),
        Err(error) => {
            let error = error.utf8_error();
            Err(BadUtf8 { valid_up_to: error.valid_up_to(), error_len: error.error_len() })
        },
    }
}

/// Past the mark `wanted` at `at`.
fn take_mark(b: &[u8], at: usize, wanted: u8) -> (past: Result<usize, StoreCodecError>)
    requires
        at <= b@.len(),
    ensures
        match (past, past_mark(b@, at as nat, wanted)) {
            (Ok(p), Ok(expected)) => p == expected && p <= b@.len(),
            (Err(e), Err(expected)) => e == expected,
            _ => false,
        },
{
    if at >= b.len() {
        Err(StoreCodecError::UnexpectedEof)
    } else if b[at] == wanted {
        Ok(at + 1)
    } else if b[at] == MARK_TERM {
        Err(StoreCodecError::UnexpectedTerminator)
    } else {
        Err(StoreCodecError::UnexpectedMark(b[at]))
    }
}

/// Eight bytes are a number below `256` to the eighth.
proof fn lemma_of_big_endian(s: Seq<u8>)
    ensures
        of_big_endian(s) < pow256(s.len()),
    decreases s.len(),
{
    if s.len() > 0 {
        lemma_of_big_endian(s.drop_last());
        let (rest, whole) = (of_big_endian(s.drop_last()), pow256((s.len() - 1) as nat));
        let last = s.last();
        assert(rest * 256 + last < 256 * whole) by (nonlinear_arith)
            requires
                rest + 1 <= whole,
                last < 256,
        ;
    }
}

/// The eight bytes at `at` as a number.
fn take_eight(b: &[u8], at: usize) -> (found: Result<(u64, usize), StoreCodecError>)
    requires
        at <= b@.len(),
    ensures
        match (found, eight_bytes(b@, at as nat)) {
            (Ok((bits, end)), Ok(expected)) => (bits as nat, end as nat) == expected && end
                <= b@.len(),
            (Err(e), Err(expected)) => e == expected,
            _ => false,
        },
{
    if b.len() - at < 8 {
        return Err(StoreCodecError::UnexpectedEof);
    }
    let ghost window = b@.subrange(at as int, at as int + 8);
    proof {
        lemma_pow256_8();
        lemma_of_big_endian(window);
    }
    let mut bits: u64 = 0;
    let mut i: usize = 0;
    while i < 8
        invariant
            i <= 8,
            at + 8 <= b@.len(),
            at + 8 <= usize::MAX,
            window == b@.subrange(at as int, at as int + 8),
            bits == of_big_endian(window.take(i as int)),
            bits < pow256(i as nat),
        decreases 8 - i,
    {
        proof {
            reveal_with_fuel(pow256, 9);
            assert(window.take(i + 1).drop_last() =~= window.take(i as int));
            assert(window.take(i + 1).last() == b@[at + i]);
            assert(bits < 0x100_0000_0000_0000);
            lemma_of_big_endian(window.take(i + 1));
        }
        bits = bits * 256 + b[at + i] as u64;
        i += 1;
    }
    proof {
        assert(window.take(8) =~= window);
    }
    Ok((bits, at + 8))
}

/// The contents of the string whose bytes begin at `start`.
fn take_str(b: &[u8], start: usize) -> (found: Result<(Vec<u8>, usize), StoreCodecError>)
    requires
        start <= b@.len(),
    ensures
        match (found, read_str(b@, start as nat)) {
            (Ok((raw, end)), Ok(expected)) => (raw@, end as nat) == expected && end <= b@.len(),
            (Err(e), Err(expected)) => e == expected,
            _ => false,
        },
{
    let mut raw: Vec<u8> = Vec::new();
    let mut at: usize = start;
    while at < b.len()
        invariant
            start <= at <= b@.len(),
            match (read_str(b@, start as nat), read_str(b@, at as nat)) {
                (Ok((x, end)), Ok((y, past))) => x == raw@ + y && end == past,
                (Err(x), Err(y)) => x == y,
                _ => false,
            },
        decreases b@.len() - at,
    {
        if b[at] == MARK_TERM {
            proof {
                assert(raw@ + Seq::<u8>::empty() =~= raw@);
            }
            return Ok((raw, at + 1));
        } else if b[at] != ESCAPE {
            raw.push(b[at]);
            proof {
                if let Ok((y, _)) = read_str(b@, at as nat + 1) {
                    assert(raw@ + y =~= raw@.drop_last() + (seq![b@[at as int]] + y));
                }
            }
            at += 1;
        } else if at + 1 >= b.len() {
            return Err(StoreCodecError::UnexpectedEof);
        } else if b[at + 1] == 1 || b[at + 1] == 2 {
            raw.push(b[at + 1] - 1);
            proof {
                if let Ok((y, _)) = read_str(b@, at as nat + 2) {
                    assert(raw@ + y =~= raw@.drop_last() + (seq![(b@[at + 1] - 1) as u8] + y));
                }
            }
            at += 2;
        } else {
            return Err(StoreCodecError::UnexpectedMark(b[at + 1]));
        }
    }
    Err(StoreCodecError::UnexpectedEof)
}

/// The value of type `ty` at `at`, and where it ends.
fn decode_at(interner: &LocalInterner, b: &[u8], at: usize, ty: &PredicateTy) -> (found: Result<
    (Value, usize),
    StoreCodecError,
>)
    requires
        at <= b@.len(),
    ensures
        match (found, decoded(interner@, b@, at as nat, *ty)) {
            (Ok((value, end)), Ok(expected)) => (value.datum(), end as nat) == expected && end
                <= b@.len(),
            (Err(e), Err(expected)) => e == expected,
            _ => false,
        },
    decreases *ty,
{
    match ty {
        PredicateTy::Int => {
            let from: usize = match take_mark(b, at, MARK_INT) {
                Ok(from) => from,
                Err(e) => return Err(e),
            };
            match take_eight(b, from) {
                Ok((bits, end)) => Ok(
                    (Value::Int((bits as i128 - 0x8000_0000_0000_0000) as i64), end),
                ),
                Err(e) => Err(e),
            }
        },
        PredicateTy::Str => {
            let from: usize = match take_mark(b, at, MARK_STR) {
                Ok(from) => from,
                Err(e) => return Err(e),
            };
            match take_str(b, from) {
                Ok((raw, end)) => match text_of(raw) {
                    Ok(text) => Ok((Value::Str(text), end)),
                    Err(bad) => Err(StoreCodecError::BadString(bad)),
                },
                Err(e) => Err(e),
            }
        },
        PredicateTy::Fact(expected) => {
            let from: usize = match take_mark(b, at, MARK_FACT) {
                Ok(from) => from,
                Err(e) => return Err(e),
            };
            match take_eight(b, from) {
                Ok((bits, end)) => {
                    let id = FactId::from_raw(bits);
                    if id.sequence() == 0 {
                        Err(StoreCodecError::ReservedFactId)
                    } else if id.predicate().0 != expected.0 {
                        Err(
                            StoreCodecError::FactRefPredicate {
                                expected: expected.0,
                                found: id.predicate().0,
                            },
                        )
                    } else {
                        Ok((Value::FactRef(id), end))
                    }
                },
                Err(e) => Err(e),
            }
        },
        PredicateTy::Record(fields) => {
            let from: usize = match take_mark(b, at, MARK_RECORD) {
                Ok(from) => from,
                Err(e) => return Err(e),
            };
            let mut out: Vec<(String, Value)> = Vec::new();
            let ghost mut found: Seq<(Seq<char>, Datum)> = Seq::empty();
            let mut end: usize = from;
            let mut k: usize = 0;
            while k < fields.len()
                invariant
                    *ty == PredicateTy::Record(*fields),
                    past_mark(b@, at as nat, MARK_RECORD) == Ok::<nat, StoreCodecError>(
                        from as nat,
                    ),
                    k <= fields@.len(),
                    end <= b@.len(),
                    decoded_fields(interner@, b@, from as nat, fields@, k as nat, *ty) == Ok::<
                        (Seq<(Seq<char>, Datum)>, nat),
                        StoreCodecError,
                    >((found, end as nat)),
                    out@.len() == found.len(),
                    forall|i: int|
                        0 <= i < out@.len() ==> found[i] == ((#[trigger] out@[i]).0@, out@[i].1.datum()),
                decreases fields@.len() - k,
            {
                let key: NameKey = fields[k].0;
                let name = match interner.try_resolve(Symbol::Schema(key)) {
                    Some(text) => text.to_owned(),
                    None => {
                        proof {
                            lemma_decoded_fields_fail(
                                interner@,
                                b@,
                                from as nat,
                                fields@,
                                (k + 1) as nat,
                                fields@.len(),
                                *ty,
                            );
                        }
                        return Err(StoreCodecError::UnknownSymbol(Symbol::Schema(key)));
                    },
                };
                proof {
                    assert(decreases_to!(*ty => (*ty)->Record_0));
                    assert((*ty)->Record_0 == *fields);
                    assert(decreases_to!(*fields => fields@));
                    assert(decreases_to!(fields@ => fields@[k as int]));
                    assert(decreases_to!(fields@[k as int] => fields@[k as int].1));
                }
                match decode_at(interner, b, end, &fields[k].1) {
                    Ok((value, past)) => {
                        proof {
                            found = found.push((name@, value.datum()));
                        }
                        out.push((name, value));
                        end = past;
                    },
                    Err(e) => {
                        proof {
                            lemma_decoded_fields_fail(
                                interner@,
                                b@,
                                from as nat,
                                fields@,
                                (k + 1) as nat,
                                fields@.len(),
                                *ty,
                            );
                        }
                        return Err(e);
                    },
                }
                k += 1;
            }
            if end >= b.len() {
                return Err(StoreCodecError::UnexpectedEof);
            }
            if b[end] != MARK_TERM {
                return Err(StoreCodecError::BadRecord);
            }
            let record = Value::Record(out);
            proof {
                assert(record.datum()->Record_0 =~= found);
            }
            Ok((record, end + 1))
        },
    }
}

proof fn lemma_decoded_fields_fail(
    names: Names,
    b: Seq<u8>,
    at: nat,
    fields: Seq<(NameKey, PredicateTy)>,
    k: nat,
    n: nat,
    whole: PredicateTy,
)
    requires
        k <= n,
        decoded_fields(names, b, at, fields, k, whole) is Err,
    ensures
        decoded_fields(names, b, at, fields, n, whole) == decoded_fields(
            names,
            b,
            at,
            fields,
            k,
            whole,
        ),
    decreases n,
{
    if k < n {
        lemma_decoded_fields_fail(names, b, at, fields, k, (n - 1) as nat, whole);
    }
}

/// What [`decode_typed`] makes of some bytes: the value they begin with.
pub open spec fn decoded_value(names: Names, b: Seq<u8>, ty: PredicateTy) -> Result<
    Datum,
    StoreCodecError,
> {
    match decoded(names, b, 0, ty) {
        Ok((value, _)) => Ok(value),
        Err(e) => Err(e),
    }
}

/// Decode the value the bytes begin with, against its declared type. A record's field
/// names come from the type, through the interner.
pub fn decode_typed(interner: &LocalInterner, bytes: &[u8], ty: &PredicateTy) -> (found: Result<
    Value,
    StoreCodecError,
>)
    ensures
        match (found, decoded_value(interner@, bytes@, *ty)) {
            (Ok(value), Ok(expected)) => value.datum() == expected,
            (Err(e), Err(expected)) => e == expected,
            _ => false,
        },
{
    match decode_at(interner, bytes, 0, ty) {
        Ok((value, _)) => Ok(value),
        Err(e) => Err(e),
    }
}

// ---- laws -------------------------------------------------------------------

proof fn lemma_big_endian(x: nat, n: nat)
    requires
        x < pow256(n),
    ensures
        big_endian(x, n).len() == n,
        of_big_endian(big_endian(x, n)) == x,
    decreases n,
{
    if n > 0 {
        assert(x / 256 < pow256((n - 1) as nat)) by (nonlinear_arith)
            requires
                x < 256 * pow256((n - 1) as nat),
        ;
        lemma_big_endian(x / 256, (n - 1) as nat);
        let s = big_endian(x, n);
        assert(s.drop_last() =~= big_endian(x / 256, (n - 1) as nat));
    }
}

proof fn lemma_pow256_8()
    ensures
        pow256(8) == 0x1_0000_0000_0000_0000,
{
    reveal_with_fuel(pow256, 9);
}

proof fn lemma_big_endian_order(x: nat, y: nat, n: nat)
    requires
        x < y < pow256(n),
    ensures
        exists|i: int|
            i < n && #[trigger] bytes::differs_at(big_endian(x, n), big_endian(y, n), i),
    decreases n,
{
    lemma_big_endian(x, n);
    lemma_big_endian(y, n);
    let m = (n - 1) as nat;
    let (a, b) = (big_endian(x, n), big_endian(y, n));
    let (c, d) = (big_endian(x / 256, m), big_endian(y / 256, m));
    assert(a.take(m as int) =~= c);
    assert(b.take(m as int) =~= d);
    assert(x / 256 < pow256(m) && y / 256 < pow256(m)) by (nonlinear_arith)
        requires
            x < y < 256 * pow256(m),
    ;
    lemma_big_endian(x / 256, m);
    lemma_big_endian(y / 256, m);
    if x / 256 < y / 256 {
        lemma_big_endian_order(x / 256, y / 256, m);
        let i = choose|i: int| i < m && #[trigger] bytes::differs_at(c, d, i);
        assert(a.take(i) =~= c.take(i));
        assert(b.take(i) =~= d.take(i));
        assert(a[i] == c[i] && b[i] == d[i]);
        assert(bytes::differs_at(a, b, i));
    } else {
        assert(x / 256 == y / 256);
        assert(bytes::differs_at(a, b, m as int));
    }
}

/// Encoded integers sort as the integers do.
pub proof fn law_integers_sort(x: i64, y: i64)
    requires
        x < y,
    ensures
        bytes::lex_lt(enc_i64(x), enc_i64(y)),
{
    lemma_pow256_8();
    lemma_big_endian_order(biased(x), biased(y), 8);
    let (a, b) = (big_endian(biased(x), 8), big_endian(biased(y), 8));
    let i = choose|i: int| i < 8 && #[trigger] bytes::differs_at(a, b, i);
    lemma_big_endian(biased(x), 8);
    lemma_big_endian(biased(y), 8);
    assert(enc_i64(x).take(i + 1) =~= seq![MARK_INT] + a.take(i));
    assert(enc_i64(y).take(i + 1) =~= seq![MARK_INT] + b.take(i));
    assert(bytes::differs_at(enc_i64(x), enc_i64(y), i + 1));
}

proof fn lemma_escaped_concat(a: Seq<u8>, b: Seq<u8>)
    ensures
        escaped(a + b) == escaped(a) + escaped(b),
    decreases b.len(),
{
    if b.len() == 0 {
        assert(a + b =~= a);
        assert(escaped(a) + escaped(b) =~= escaped(a));
    } else {
        assert((a + b).drop_last() =~= a + b.drop_last());
        lemma_escaped_concat(a, b.drop_last());
        assert(escaped(a + b) =~= escaped(a) + escaped(b));
    }
}

proof fn lemma_escaped_cons(x: u8, s: Seq<u8>)
    ensures
        escaped(seq![x] + s) == escaped_byte(x) + escaped(s),
{
    lemma_escaped_concat(seq![x], s);
    assert(seq![x].drop_last() =~= Seq::<u8>::empty());
    reveal_with_fuel(escaped, 2);
    assert(escaped(seq![x]) =~= escaped_byte(x));
}

/// Reading back an escaped string: its bytes, and the place past its terminator,
/// whatever follows.
proof fn lemma_read_back(b: Seq<u8>, at: nat, s: Seq<u8>)
    requires
        at + escaped(s).len() < b.len(),
        b.subrange(at as int, (at + escaped(s).len()) as int) == escaped(s),
        b[(at + escaped(s).len()) as int] == MARK_TERM,
    ensures
        read_str(b, at) == Ok::<(Seq<u8>, nat), StoreCodecError>((s, at + escaped(s).len() + 1)),
    decreases s.len(),
{
    if s.len() > 0 {
        let rest = s.drop_first();
        assert(s =~= seq![s[0]] + rest);
        lemma_escaped_cons(s[0], rest);
        let w = escaped_byte(s[0]).len();
        let sub = b.subrange(at as int, (at + escaped(s).len()) as int);
        assert(sub[0] == b[at as int]);
        if s[0] <= ESCAPE {
            assert(sub[1] == b[(at + 1) as int]);
        }
        assert(b.subrange((at + w) as int, (at + escaped(s).len()) as int) =~= escaped(rest)) by {
            assert(sub.subrange(w as int, sub.len() as int) =~= escaped(rest));
        }
        lemma_read_back(b, at + w, rest);
        assert(seq![s[0]] + rest =~= s);
    } else {
        assert(s =~= Seq::empty());
    }
}

proof fn lemma_scalars_are_self_delimiting(before: Seq<u8>, d: Datum, after: Seq<u8>)
    requires
        d !is Record,
    ensures
        skipped(before + enc(d) + after, before.len()) == Ok::<nat, StoreCodecError>(
            before.len() + enc(d).len(),
        ),
{
    lemma_pow256_8();
    let b = before + enc(d) + after;
    let at = before.len();
    assert(b[at as int] == enc(d)[0]);
    match d {
        Datum::Int(v) => {
            lemma_big_endian(biased(v), 8);
        },
        Datum::FactRef(id) => {
            lemma_big_endian(id.bits() as nat, 8);
        },
        Datum::Str(s) => {
            let raw = encode_utf8(s);
            assert(b.subrange((at + 1) as int, (at + 1 + escaped(raw).len()) as int)
                =~= escaped(raw));
            lemma_read_back(b, at + 1, raw);
        },
        _ => {},
    }
}

/// The values of a record, without their names.
pub open spec fn values_of(fields: Seq<(Seq<char>, Datum)>) -> Seq<Datum> {
    fields.map_values(|f: (Seq<char>, Datum)| f.1)
}

/// A record is made of its values.
pub proof fn lemma_parts_decrease(d: Datum, i: int)
    requires
        d is Record,
        0 <= i < d->Record_0.len(),
    ensures
        decreases_to!(d => values_of(d->Record_0)[i]),
{
    let fields = d->Record_0;
    assert(decreases_to!(d => fields));
    assert(decreases_to!(fields => fields[i]));
    assert(decreases_to!(fields[i] => fields[i].1));
}

/// No encoding is empty, and none begins with a terminator.
pub proof fn lemma_enc_begins(d: Datum)
    ensures
        enc(d).len() > 0,
        enc(d)[0] != MARK_TERM,
{
}

/// Where a record's values lie: value `k` stands right after the ones before it.
pub proof fn lemma_record_parts(before: Seq<u8>, d: Datum, after: Seq<u8>, k: nat)
    requires
        d is Record,
        k <= d->Record_0.len(),
    ensures
        ({
            let b = before + enc(d) + after;
            let values = values_of(d->Record_0);
            let p = before.len() + 1 + enc_fields(values.take(k as int), d).len();
            &&& p < before.len() + enc(d).len()
            &&& b[before.len() as int] == MARK_RECORD
            &&& k == values.len() ==> b[p as int] == MARK_TERM && p + 1 == before.len() + enc(
                d,
            ).len()
            &&& k < values.len() ==> {
                let q = p + enc(values[k as int]).len();
                &&& q == before.len() + 1 + enc_fields(values.take((k + 1) as int), d).len()
                &&& b == b.take(p as int) + enc(values[k as int]) + b.skip(q as int)
                &&& b[p as int] != MARK_TERM
            }
        }),
{
    let b = before + enc(d) + after;
    let values = values_of(d->Record_0);
    let n = values.len();
    assert(values == d->Record_0.map_values(|f: (Seq<char>, Datum)| f.1));
    let inner = enc_fields(values, d);
    assert(enc(d) == seq![MARK_RECORD] + inner + seq![MARK_TERM]);
    assert(values.take(n as int) =~= values);
    lemma_enc_fields_prefix(d, k, n);
    let p = before.len() + 1 + enc_fields(values.take(k as int), d).len();
    if k < n {
        lemma_enc_fields_prefix(d, k + 1, n);
        lemma_enc_fields_step(d, k);
        lemma_enc_begins(values[k as int]);
        let e = enc(values[k as int]);
        let q = p + e.len();
        assert(inner.take((q - before.len() - 1) as int) == enc_fields(
            values.take(k as int),
            d,
        ) + e);
        assert(b.subrange(p as int, q as int) =~= e) by {
            assert(b.subrange(before.len() as int + 1, before.len() as int + 1 + inner.len())
                =~= inner);
            assert(inner.take((q - before.len() - 1) as int).skip(
                (p - before.len() - 1) as int,
            ) =~= e);
            assert(b.subrange(p as int, q as int) =~= inner.take(
                (q - before.len() - 1) as int,
            ).skip((p - before.len() - 1) as int));
        }
        assert(b =~= b.take(p as int) + b.subrange(p as int, q as int) + b.skip(q as int));
        assert(b[p as int] == b.subrange(p as int, q as int)[0]);
    }
}

/// The encodings of the first `k` values begin those of the first `n`.
pub proof fn lemma_enc_fields_prefix(d: Datum, k: nat, n: nat)
    requires
        d is Record,
        k <= n <= d->Record_0.len(),
    ensures
        ({
            let values = values_of(d->Record_0);
            let (a, b) = (
                enc_fields(values.take(k as int), d),
                enc_fields(values.take(n as int), d),
            );
            a.len() <= b.len() && b.take(a.len() as int) == a
        }),
    decreases n,
{
    let values = values_of(d->Record_0);
    let a = enc_fields(values.take(k as int), d);
    if k < n {
        lemma_enc_fields_prefix(d, k, (n - 1) as nat);
        lemma_enc_fields_step(d, (n - 1) as nat);
        let b = enc_fields(values.take(n as int), d);
        let c = enc_fields(values.take(n - 1), d);
        assert(b.take(a.len() as int) =~= c.take(a.len() as int));
    } else {
        assert(a.take(a.len() as int) =~= a);
    }
}

pub proof fn lemma_enc_fields_step(d: Datum, k: nat)
    requires
        d is Record,
        k < d->Record_0.len(),
    ensures
        ({
            let values = values_of(d->Record_0);
            enc_fields(values.take((k + 1) as int), d) == enc_fields(values.take(k as int), d) + enc(
                values[k as int],
            )
        }),
{
    let values = values_of(d->Record_0);
    lemma_parts_decrease(d, k as int);
    assert(values.take((k + 1) as int).drop_last() =~= values.take(k as int));
    assert(values.take((k + 1) as int).last() == values[k as int]);
}

/// A value's encoding says where it ends: skipping it lands just past it, whatever
/// stands before it and after it.
pub proof fn law_values_are_self_delimiting(before: Seq<u8>, d: Datum, after: Seq<u8>)
    ensures
        skipped(before + enc(d) + after, before.len()) == Ok::<nat, StoreCodecError>(
            before.len() + enc(d).len(),
        ),
    decreases d, 1nat, 0nat,
{
    if let Datum::Record(fields) = d {
        lemma_record_parts(before, d, after, 0);
        assert(values_of(fields).take(0) =~= Seq::<Datum>::empty());
        lemma_fields_are_self_delimiting(before, d, after, 0);
    } else {
        lemma_scalars_are_self_delimiting(before, d, after);
    }
}

proof fn lemma_fields_are_self_delimiting(before: Seq<u8>, d: Datum, after: Seq<u8>, k: nat)
    requires
        d is Record,
        k <= d->Record_0.len(),
    ensures
        skipped_fields(
            before + enc(d) + after,
            before.len() + 1 + enc_fields(values_of(d->Record_0).take(k as int), d).len(),
        ) == Ok::<nat, StoreCodecError>(before.len() + enc(d).len()),
    decreases d, 0nat, d->Record_0.len() - k,
{
    let b = before + enc(d) + after;
    let values = values_of(d->Record_0);
    lemma_record_parts(before, d, after, k);
    if k < values.len() {
        let p = before.len() + 1 + enc_fields(values.take(k as int), d).len();
        let e = enc(values[k as int]);
        let q = p + e.len();
        lemma_record_parts(before, d, after, k + 1);
        lemma_parts_decrease(d, k as int);
        law_values_are_self_delimiting(b.take(p as int), values[k as int], b.skip(q as int));
        assert(b.take(p as int).len() == p);
        lemma_fields_are_self_delimiting(before, d, after, k + 1);
    }
}

/// Two references with the same encoding name the same fact.
pub proof fn lemma_same_fact(a: FactId, b: FactId)
    requires
        enc_fact(a) == enc_fact(b),
    ensures
        a == b,
{
    lemma_pow256_8();
    lemma_big_endian(a.bits() as nat, 8);
    lemma_big_endian(b.bits() as nat, 8);
    assert(enc_fact(a).skip(1) =~= big_endian(a.bits() as nat, 8));
    assert(enc_fact(b).skip(1) =~= big_endian(b.bits() as nat, 8));
    crate::plan::lemma_of_bits(a);
    crate::plan::lemma_of_bits(b);
}

/// No value's encoding begins another's: bytes that begin with both are the same value,
/// so a scan that seeks a whole value finds that value alone.
pub proof fn law_no_encoding_begins_another(b: Seq<u8>, d: Datum, e: Datum)
    requires
        bytes::begins_with(b, enc(d)),
        bytes::begins_with(b, enc(e)),
    ensures
        enc(d) == enc(e),
{
    let (m, n) = (enc(d).len() as int, enc(e).len() as int);
    let nothing = Seq::<u8>::empty();
    assert(b =~= nothing + enc(d) + b.skip(m));
    assert(b =~= nothing + enc(e) + b.skip(n));
    law_values_are_self_delimiting(nothing, d, b.skip(m));
    law_values_are_self_delimiting(nothing, e, b.skip(n));
}

/// Whether a value has a type, its field names being the ones the type declares.
pub open spec fn fits(names: Names, d: Datum, ty: PredicateTy) -> bool
    decreases d,
{
    match (d, ty) {
        (Datum::Int(_), PredicateTy::Int) => true,
        (Datum::Str(_), PredicateTy::Str) => true,
        (Datum::FactRef(id), PredicateTy::Fact(predicate)) => id.sequence_of() != 0
            && id.predicate_of() == predicate.0,
        (Datum::Record(fields), PredicateTy::Record(tys)) => fields.len() == tys@.len() && forall|
            i: int,
        |
            0 <= i < fields.len() ==> names.text(Symbol::Schema(tys@[i].0)) == Some(
                (#[trigger] fields[i]).0,
            ) && fits(names, fields[i].1, tys@[i].1),
        _ => false,
    }
}

/// Decoding gives back what was encoded, whatever stands before it and after it.
pub proof fn law_decoding_gives_back_what_was_encoded(
    names: Names,
    before: Seq<u8>,
    d: Datum,
    after: Seq<u8>,
    ty: PredicateTy,
)
    requires
        fits(names, d, ty),
    ensures
        decoded(names, before + enc(d) + after, before.len(), ty) == Ok::<
            (Datum, nat),
            StoreCodecError,
        >((d, before.len() + enc(d).len())),
    decreases d, 1nat, 0nat,
{
    lemma_pow256_8();
    let b = before + enc(d) + after;
    let at = before.len();
    assert(b[at as int] == enc(d)[0]);
    match d {
        Datum::Int(v) => {
            lemma_big_endian(biased(v), 8);
            assert(b.subrange((at + 1) as int, (at + 9) as int) =~= big_endian(biased(v), 8));
        },
        Datum::FactRef(id) => {
            lemma_big_endian(id.bits() as nat, 8);
            assert(b.subrange((at + 1) as int, (at + 9) as int) =~= big_endian(
                id.bits() as nat,
                8,
            ));
            crate::plan::lemma_of_bits(id);
        },
        Datum::Str(s) => {
            let raw = encode_utf8(s);
            assert(b.subrange((at + 1) as int, (at + 1 + escaped(raw).len()) as int)
                =~= escaped(raw));
            lemma_read_back(b, at + 1, raw);
            encode_utf8_valid_utf8(s);
            encode_utf8_decode_utf8(s);
        },
        Datum::Record(fields) => {
            let tys = ty->Record_0;
            lemma_record_parts(before, d, after, 0);
            lemma_record_parts(before, d, after, fields.len());
            assert(values_of(fields).take(fields.len() as int) =~= values_of(fields));
            lemma_decoding_fields(names, before, d, after, ty, fields.len());
            assert(fields.take(fields.len() as int) =~= fields);
        },
    }
}

proof fn lemma_decoding_fields(
    names: Names,
    before: Seq<u8>,
    d: Datum,
    after: Seq<u8>,
    ty: PredicateTy,
    k: nat,
)
    requires
        d is Record,
        ty is Record,
        fits(names, d, ty),
        k <= d->Record_0.len(),
    ensures
        decoded_fields(
            names,
            before + enc(d) + after,
            before.len() + 1,
            ty->Record_0@,
            k,
            ty,
        ) == Ok::<(Seq<(Seq<char>, Datum)>, nat), StoreCodecError>(
            (
                d->Record_0.take(k as int),
                before.len() + 1 + enc_fields(values_of(d->Record_0).take(k as int), d).len(),
            ),
        ),
    decreases d, 0nat, k,
{
    let b = before + enc(d) + after;
    let fields = d->Record_0;
    let values = values_of(fields);
    let tys = ty->Record_0;
    if k == 0 {
        assert(fields.take(0) =~= Seq::<(Seq<char>, Datum)>::empty());
        assert(values.take(0) =~= Seq::<Datum>::empty());
    } else {
        let j = (k - 1) as nat;
        lemma_decoding_fields(names, before, d, after, ty, j);
        lemma_record_parts(before, d, after, j);
        lemma_record_parts(before, d, after, k);
        lemma_parts_decrease(d, j as int);
        let p = before.len() + 1 + enc_fields(values.take(j as int), d).len();
        let q = p + enc(values[j as int]).len();
        assert(b.take(p as int).len() == p);
        assert(fields[j as int].1 == values[j as int]);
        law_decoding_gives_back_what_was_encoded(
            names,
            b.take(p as int),
            values[j as int],
            b.skip(q as int),
            tys@[j as int].1,
        );
        assert(decreases_to!(ty => ty->Record_0));
        assert(decreases_to!(*tys => tys@));
        assert(decreases_to!(tys@ => tys@[j as int]));
        assert(decreases_to!(tys@[j as int] => tys@[j as int].1));
        assert(fields.take(k as int) =~= fields.take(j as int).push(fields[j as int]));
    }
}

/// A string's encoding begins with the encoding of a prefix exactly when the string
/// begins with the prefix, so matching a prefix is matching bytes.
pub proof fn law_string_prefixes(s: Seq<char>, p: Seq<char>)
    ensures
        bytes::begins_with(enc_str(s), enc_str_prefix(p)) <==> bytes::begins_with(encode_utf8(s), encode_utf8(p)),
{
    let (a, b) = (encode_utf8(s), encode_utf8(p));
    lemma_escaped_prefix(a, b);
    let (x, y) = (escaped(a).push(MARK_TERM), escaped(b));
    assert(enc_str(s) =~= seq![MARK_STR] + x);
    let n = y.len() as int;
    if bytes::begins_with(enc_str(s), enc_str_prefix(p)) {
        assert(x.take(n) =~= y) by {
            assert(enc_str(s).take(n + 1).subrange(1, n + 1) =~= x.take(n));
            assert(enc_str_prefix(p).subrange(1, n + 1) =~= y);
        }
    }
    if bytes::begins_with(x, y) {
        assert(enc_str(s).take(n + 1) =~= seq![MARK_STR] + x.take(n));
    }
}

proof fn lemma_escaped_prefix(a: Seq<u8>, b: Seq<u8>)
    ensures
        bytes::begins_with(escaped(a).push(MARK_TERM), escaped(b)) <==> bytes::begins_with(a, b),
    decreases b.len(),
{
    let x = escaped(a).push(MARK_TERM);
    let y = escaped(b);
    if b.len() == 0 {
        assert(a.take(0) =~= b);
        assert(x.take(0) =~= y);
    } else {
        let d = b.drop_first();
        assert(b =~= seq![b[0]] + d);
        lemma_escaped_cons(b[0], d);
        let w = escaped_byte(b[0]).len() as int;
        let n = y.len() as int;
        assert(y.take(w) =~= escaped_byte(b[0]));
        if a.len() == 0 {
            assert(x =~= seq![MARK_TERM]);
            if bytes::begins_with(x, y) {
                assert(x.take(n)[0] == y[0]);
                assert(y[0] == escaped_byte(b[0])[0]);
                assert(false);
            }
        } else {
            let c = a.drop_first();
            assert(a =~= seq![a[0]] + c);
            lemma_escaped_cons(a[0], c);
            lemma_escaped_prefix(c, d);
            let v = escaped_byte(a[0]).len() as int;
            let xs = escaped(c).push(MARK_TERM);
            assert(x =~= escaped_byte(a[0]) + xs);
            assert(y =~= escaped_byte(b[0]) + escaped(d));
            if bytes::begins_with(x, y) {
                assert(x.take(n)[0] == y[0]);
                assert(x[0] == escaped_byte(a[0])[0]);
                assert(y[0] == escaped_byte(b[0])[0]);
                assert(a[0] == b[0]);
                assert(xs.take(n - w) =~= x.take(n).subrange(w, n));
                assert(y.subrange(w, n) =~= escaped(d));
                assert(bytes::begins_with(xs, escaped(d)));
                assert(a.take(b.len() as int) =~= seq![a[0]] + c.take(d.len() as int));
            }
            if bytes::begins_with(a, b) {
                assert(a.take(b.len() as int)[0] == b[0]);
                assert(c.take(d.len() as int) =~= a.take(b.len() as int).drop_first());
                assert(bytes::begins_with(c, d));
                assert(x.take(n) =~= escaped_byte(a[0]) + xs.take(n - w));
            }
        }
    }
}

} // verus!
