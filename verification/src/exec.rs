//! The pump: nested loops over a store's key index that hand out one row at a time, and
//! can be suspended after any row.
use std::sync::Arc;

use byteview::ByteView;

use vstd::prelude::*;
use vstd::string::StringExecFns;
use vstd::utf8::encode_utf8;

use crate::blob;
use crate::blob::{as_bytes, blob_clone, blob_from, blob_range};
use crate::bytes;
use crate::bytes::{append_bytes, same_bytes, starts_with, strinc};
use crate::error::{ApertureError, StoreCodecError, StoreError};
use crate::iter;
use crate::iter::{Address, KIND_COMPUTED, KIND_ROW};
use crate::machine;
use crate::machine::{Place, Run};
use crate::plan;
use crate::plan::{
    Fact, FactId, FactStore, FieldPath, Generator, Plan, Residual, ResidualOp, RowScan, SeekKey,
    SeekKeyPart,
};
use crate::schema::PREDICATE_ID_SIZE;
use crate::text;
use crate::text::{chars_of, push_decimal, push_hexadecimal};
use crate::tuple;
use crate::tuple::{field_range, nested_range, put_big_endian, put_fact_id};

verus! {

// ---- showing bytes ----------------------------------------------------------

/// The first `k` bytes as pairs of digits, a space between them.
pub open spec fn pairs(bytes: Seq<u8>, k: nat) -> Seq<char>
    decreases k,
{
    if k == 0 {
        Seq::empty()
    } else if k == 1 {
        text::hexadecimal(bytes[0] as nat, 2)
    } else {
        pairs(bytes, (k - 1) as nat) + " "@ + text::hexadecimal(bytes[k - 1] as nat, 2)
    }
}

/// Bytes as text.
pub open spec fn hex_text(bytes: Seq<u8>) -> Seq<char> {
    if bytes.len() == 0 {
        "(empty)"@
    } else {
        pairs(bytes, bytes.len())
    }
}

/// Bytes as pairs of digits, a space between them.
pub fn hex(bytes: &[u8]) -> (shown: String)
    ensures
        shown@ == hex_text(bytes@),
{
    if bytes.len() == 0 {
        return "(empty)".to_owned();
    }
    let mut shown: String = String::new();
    let mut k: usize = 0;
    while k < bytes.len()
        invariant
            k <= bytes@.len(),
            shown@ == pairs(bytes@, k as nat),
        decreases bytes@.len() - k,
    {
        if k > 0 {
            shown.append(" ");
        }
        push_hexadecimal(&mut shown, bytes[k] as u32, 2);
        proof {
            assert(shown@ =~= pairs(bytes@, (k + 1) as nat));
        }
        k += 1;
    }
    shown
}

/// A row as text: its fact, its predicate and its key's bytes.
pub open spec fn fact_text(fact: Fact) -> Seq<char> {
    let named = "fact#"@ + text::decimal(fact.id.bits() as nat);
    if fact.row.len() < 4 {
        named + " "@ + hex_text(fact.row)
    } else {
        let head = named + " pred="@ + text::decimal(tuple::of_big_endian(fact.row.take(4)));
        if fact.row.len() == 4 {
            head
        } else {
            head + " │ "@ + hex_text(fact.key())
        }
    }
}

/// A slot as text.
pub open spec fn slot_text(slot: Slot) -> Seq<char> {
    match slot {
        Slot::Fact { id, key } => fact_text(plan::fact_of(key, id)),
        Slot::Value(value) => hex_text(blob::blob_bytes(value)),
    }
}

/// A slot as text.
pub fn fmt_slot(slot: &Slot) -> (shown: String)
    ensures
        shown@ == slot_text(*slot),
{
    match slot {
        Slot::Value(value) => hex(as_bytes(value)),
        Slot::Fact { id, key } => {
            let row: &[u8] = as_bytes(key);
            let mut shown: String = "fact#".to_owned();
            push_decimal(&mut shown, id.raw());
            if row.len() < PREDICATE_ID_SIZE {
                shown.append(" ");
                shown.append(hex(row).as_str());
                return shown;
            }
            proof {
                reveal_with_fuel(tuple::of_big_endian, 5);
                let name = row@.take(4);
                assert(name.drop_last() =~= row@.take(3));
                assert(row@.take(3).drop_last() =~= row@.take(2));
                assert(row@.take(2).drop_last() =~= row@.take(1));
                assert(row@.take(1).drop_last() =~= Seq::<u8>::empty());
            }
            let predicate: u64 = ((row[0] as u64 * 256 + row[1] as u64) * 256 + row[2] as u64)
                * 256 + row[3] as u64;
            shown.append(" pred=");
            push_decimal(&mut shown, predicate);
            let key: ByteView = blob_from(key, PREDICATE_ID_SIZE);
            if row.len() > PREDICATE_ID_SIZE {
                shown.append(" │ ");
                shown.append(hex(as_bytes(&key)).as_str());
            }
            shown
        },
    }
}

// ---- slots ------------------------------------------------------------------

/// What a register of the pump holds: a row and the fact it is the key of, or a value.
#[derive(Debug)]
pub enum Slot {
    Fact { id: FactId, key: ByteView },
    Value(ByteView),
}

impl Slot {
    /// All the bytes the slot holds.
    pub open spec fn whole(self) -> Seq<u8> {
        match self {
            Slot::Fact { key, .. } => blob::blob_bytes(key),
            Slot::Value(value) => blob::blob_bytes(value),
        }
    }

    /// The bytes the slot's fields lie in: a row's without its predicate.
    pub open spec fn content(self) -> Seq<u8> {
        match self {
            Slot::Fact { key, .. } => blob::blob_bytes(key).skip(4),
            Slot::Value(value) => blob::blob_bytes(value),
        }
    }

    /// The fact whose row the slot holds.
    pub open spec fn fact(self) -> Fact
        recommends
            self is Fact,
    {
        match self {
            Slot::Fact { id, key } => plan::fact_of(key, id),
            Slot::Value(value) => plan::fact_of(value, FactId::of_bits(0)),
        }
    }

    /// A row holds its predicate's bytes at least.
    pub open spec fn wf(self) -> bool {
        self matches Slot::Fact { key, .. } ==> blob::blob_bytes(key).len() >= 4
    }

    /// All the bytes.
    pub fn bytes(&self) -> (bytes: ByteView)
        ensures
            blob::blob_bytes(bytes) == self.whole(),
    {
        match self {
            Slot::Fact { key, .. } => blob_clone(key),
            Slot::Value(value) => blob_clone(value),
        }
    }

    /// The bytes the fields lie in.
    pub fn value(&self) -> (value: ByteView)
        requires
            self.wf(),
        ensures
            blob::blob_bytes(value) == self.content(),
    {
        match self {
            Slot::Fact { key, .. } => blob_from(key, PREDICATE_ID_SIZE),
            Slot::Value(value) => blob_clone(value),
        }
    }

    /// Top-level field `idx`, encoded.
    pub fn field(&self, idx: usize) -> (field: Result<ByteView, StoreCodecError>)
        requires
            self.wf(),
        ensures
            match (field, tuple::field_span(self.content(), idx as nat)) {
                (Ok(found), Ok((start, end))) => blob::blob_bytes(found)
                    == self.content().subrange(start as int, end as int),
                (Err(e), Err(expected)) => e == expected,
                _ => false,
            },
    {
        let value: ByteView = self.value();
        match field_range(as_bytes(&value), idx) {
            Ok((start, end)) => Ok(blob_range(&value, start, end)),
            Err(e) => Err(e),
        }
    }

    /// The field a path names, encoded.
    pub fn at_path(&self, path: &FieldPath) -> (field: Result<ByteView, ApertureError>)
        requires
            self.wf(),
        ensures
            match (field, tuple::path_bytes(self.content(), path@)) {
                (Ok(found), Ok(expected)) => blob::blob_bytes(found) == expected,
                (Err(e), Err(expected)) => e == expected,
                _ => false,
            },
    {
        let value: ByteView = self.value();
        let (start, end): (usize, usize) = match field_range(as_bytes(&value), path.field_idx()) {
            Ok(span) => span,
            Err(e) => return Err(ApertureError::Decode(e)),
        };
        match nested_range(as_bytes(&value), start, end, path.steps()) {
            Ok((from, to)) => Ok(blob_range(&value, from, to)),
            Err(e) => Err(e),
        }
    }
}

impl Clone for Slot {
    fn clone(&self) -> (copy: Self)
        ensures
            copy.whole() == self.whole(),
            copy.content() == self.content(),
            copy.wf() == self.wf(),
            copy.fact() == self.fact(),
            copy is Fact == self is Fact,
    {
        match self {
            Slot::Fact { id, key } => Slot::Fact { id: *id, key: blob_clone(key) },
            Slot::Value(value) => Slot::Value(blob_clone(value)),
        }
    }
}

/// What a register holds.
pub open spec fn content(slot: Option<Slot>) -> Option<Fact> {
    match slot {
        Some(Slot::Fact { id, key }) => Some(plan::fact_of(key, id)),
        _ => None,
    }
}

/// A register that holds anything holds a whole row.
pub open spec fn holds_a_row(slot: Option<Slot>) -> bool {
    slot matches Some(held) ==> held is Fact && held.wf()
}

/// The registers of the pump.
pub struct Env {
    slots: Vec<Option<Slot>>,
}

impl View for Env {
    type V = Seq<Option<Fact>>;

    closed spec fn view(&self) -> Seq<Option<Fact>> {
        Seq::new(self.slots@.len(), |i: int| content(self.slots@[i]))
    }
}

impl Env {
    /// Every register that holds anything holds a whole row.
    pub closed spec fn wf(self) -> bool {
        forall|i: int| 0 <= i < self.slots@.len() ==> holds_a_row(#[trigger] self.slots@[i])
    }

    /// Registers that hold nothing.
    pub fn new(nvars: usize) -> (env: Self)
        ensures
            env@ == machine::unbound(nvars as nat),
            env.wf(),
    {
        let mut slots: Vec<Option<Slot>> = Vec::new();
        let mut i: usize = 0;
        while i < nvars
            invariant
                i <= nvars,
                slots@.len() == i,
                forall|j: int| 0 <= j < i ==> (#[trigger] slots@[j]) is None,
            decreases nvars - i,
        {
            slots.push(None);
            i += 1;
        }
        let env = Self { slots };
        proof {
            assert(env@ =~= machine::unbound(nvars as nat));
        }
        env
    }

    /// The slot a register holds.
    pub fn get(&self, address: Address) -> (held: Result<&Slot, ApertureError>)
        requires
            self.wf(),
        ensures
            match (held, machine::held(self@, address)) {
                (Ok(slot), Ok(fact)) => slot is Fact && slot.fact() == fact && slot.wf() && slot.content()
                    == fact.key(),
                (Err(e), Err(expected)) => e == expected,
                _ => false,
            },
    {
        if address.0 >= self.slots.len() {
            return Err(ApertureError::AddressOutOfBounds(address));
        }
        match &self.slots[address.0] {
            Some(slot) => Ok(slot),
            None => Err(ApertureError::UseBeforeBind(address)),
        }
    }

    /// The fact whose row a register holds.
    fn fact_id(&self, address: Address) -> (held: Result<FactId, ApertureError>)
        requires
            self.wf(),
        ensures
            match (held, machine::held(self@, address)) {
                (Ok(id), Ok(fact)) => id == fact.id,
                (Err(e), Err(expected)) => e == expected,
                _ => false,
            },
    {
        match self.get(address) {
            Ok(Slot::Fact { id, .. }) => Ok(*id),
            Ok(Slot::Value(_)) => Err(
                ApertureError::SlotKindMismatch { address, wanted: KIND_ROW, held: KIND_COMPUTED },
            ),
            Err(e) => Err(e),
        }
    }

    /// The field a path names in the row a register holds, encoded.
    fn field(&self, address: Address, path: &FieldPath) -> (field: Result<ByteView, ApertureError>)
        requires
            self.wf(),
        ensures
            match (
                field,
                match machine::held(self@, address) {
                    Ok(fact) => tuple::path_bytes(fact.key(), path@),
                    Err(e) => Err(e),
                },
            ) {
                (Ok(found), Ok(expected)) => blob::blob_bytes(found) == expected,
                (Err(e), Err(expected)) => e == expected,
                _ => false,
            },
    {
        match self.get(address) {
            Ok(slot) => slot.at_path(path),
            Err(e) => Err(e),
        }
    }

    /// Bind a row to each of `binds`.
    fn bind(&mut self, binds: &[Address], slot: &Slot)
        requires
            old(self).wf(),
            slot.wf(),
            slot is Fact,
            machine::stray(binds@, old(self)@.len(), 0) is None,
        ensures
            final(self)@ == machine::bound(old(self)@, binds@, slot.fact()),
            final(self).wf(),
    {
        let mut k: usize = 0;
        while k < binds.len()
            invariant
                k <= binds@.len(),
                self.wf(),
                slot.wf(),
                slot is Fact,
                self@.len() == old(self)@.len(),
                self@ == machine::bound(old(self)@, binds@.take(k as int), slot.fact()),
                machine::stray(binds@, old(self)@.len(), k as nat) is None,
            decreases binds@.len() - k,
        {
            let address: Address = binds[k];
            let ghost before = self@;
            self.slots.set(address.0, Some(slot.clone()));
            proof {
                let taken = binds@.take(k as int);
                let more = binds@.take(k + 1);
                assert(more =~= taken.push(address));
                assert(self.slots.len() == self@.len());
                assert forall|i: int| 0 <= i < self@.len() implies #[trigger] self@[i]
                    == machine::bound(old(self)@, more, slot.fact())[i] by {
                    let a = Address(i as usize);
                    if taken.contains(a) {
                        let j = choose|j: int| 0 <= j < taken.len() && taken[j] == a;
                        assert(more[j] == a);
                    }
                    if more.contains(a) {
                        let j = choose|j: int| 0 <= j < more.len() && more[j] == a;
                        if j < k {
                            assert(taken[j] == a);
                        }
                    }
                    if i == address.0 {
                        assert(more[k as int] == a);
                    } else {
                        assert(self@[i] == before[i]);
                    }
                }
                assert(self@ =~= machine::bound(old(self)@, more, slot.fact()));
            }
            k += 1;
        }
        proof {
            assert(binds@.take(k as int) =~= binds@);
        }
    }
}

// ---- showing registers ------------------------------------------------------

/// Ends a style.
pub const RST: &'static str = "\x1b[0m";

/// Bold.
pub const BOLD: &'static str = "\x1b[1m";

/// Dim.
pub const DIM: &'static str = "\x1b[2m";

/// A text `n` times over.
pub open spec fn repeated(s: Seq<char>, n: nat) -> Seq<char>
    decreases n,
{
    if n == 0 {
        Seq::empty()
    } else {
        repeated(s, (n - 1) as nat) + s
    }
}

/// A text with spaces behind it, to at least `width` characters.
pub open spec fn padded(s: Seq<char>, width: nat) -> Seq<char> {
    if s.len() < width {
        s + repeated(" "@, (width - s.len()) as nat)
    } else {
        s
    }
}

/// The most bytes one of the first `k` cells takes, and `least` at least.
pub open spec fn widest(cells: Seq<Seq<char>>, k: nat, least: nat) -> nat
    decreases k,
{
    if k == 0 {
        least
    } else {
        let before = widest(cells, (k - 1) as nat, least);
        let bytes = encode_utf8(cells[k - 1]).len();
        if bytes > before {
            bytes
        } else {
            before
        }
    }
}

/// What a register is called.
pub open spec fn register_label(i: nat) -> Seq<char> {
    "v"@ + text::decimal(i)
}

/// What a register holds, as text.
pub open spec fn register_text(held: Option<Fact>) -> Seq<char> {
    match held {
        None => "(unbound)"@,
        Some(fact) => fact_text(fact),
    }
}

/// A line of the table's frame.
pub open spec fn frame_line(
    left: Seq<char>,
    middle: Seq<char>,
    right: Seq<char>,
    label: nat,
    value: nat,
) -> Seq<char> {
    "  "@ + DIM@ + left + "─"@ + repeated("─"@, label) + "─"@ + middle + "─"@ + repeated("─"@, value)
        + "─"@ + right + RST@
}

/// The bar between two cells.
pub open spec fn bar() -> Seq<char> {
    DIM@ + "│"@ + RST@
}

/// The line that names the columns.
pub open spec fn title_line(label: nat, value: nat) -> Seq<char> {
    "  "@ + bar() + " "@ + BOLD@ + padded("var"@, label) + RST@ + " "@ + bar() + " "@ + BOLD@ + padded(
        "bytes"@,
        value,
    ) + RST@ + " "@ + bar()
}

/// The line of one register.
pub open spec fn cell_line(
    label: Seq<char>,
    value: Seq<char>,
    label_width: nat,
    value_width: nat,
) -> Seq<char> {
    "  "@ + bar() + " "@ + padded(label, label_width) + " "@ + bar() + " "@ + padded(
        value,
        value_width,
    ) + " "@ + bar()
}

/// What the registers are called, in order.
pub open spec fn labels(env: Seq<Option<Fact>>) -> Seq<Seq<char>> {
    Seq::new(env.len(), |i: int| register_label(i as nat))
}

/// What the registers hold as text, in order.
pub open spec fn values(env: Seq<Option<Fact>>) -> Seq<Seq<char>> {
    Seq::new(env.len(), |i: int| register_text(env[i]))
}

/// The registers as a table, a line each. No registers make no table.
pub open spec fn table_text(env: Seq<Option<Fact>>) -> Seq<Seq<char>> {
    if env.len() == 0 {
        Seq::empty()
    } else {
        let label = widest(labels(env), env.len(), 3);
        let value = widest(values(env), env.len(), 5);
        seq![
            frame_line("┌"@, "┬"@, "┐"@, label, value),
            title_line(label, value),
            frame_line("├"@, "┼"@, "┤"@, label, value),
        ] + Seq::new(
            env.len(),
            |i: int| cell_line(labels(env)[i], values(env)[i], label, value),
        ) + seq![frame_line("└"@, "┴"@, "┘"@, label, value)]
    }
}

/// What some strings hold.
pub open spec fn texts(lines: Seq<String>) -> Seq<Seq<char>> {
    lines.map_values(|line: String| line@)
}

fn push_repeated(out: &mut String, s: &str, n: usize)
    ensures
        final(out)@ == old(out)@ + repeated(s@, n as nat),
{
    let mut k: usize = 0;
    proof {
        assert(out@ + repeated(s@, 0) =~= out@);
    }
    while k < n
        invariant
            k <= n,
            out@ == old(out)@ + repeated(s@, k as nat),
        decreases n - k,
    {
        out.append(s);
        proof {
            assert(out@ =~= old(out)@ + repeated(s@, (k + 1) as nat));
        }
        k += 1;
    }
}

fn push_padded(out: &mut String, s: &str, width: usize)
    ensures
        final(out)@ == old(out)@ + padded(s@, width as nat),
{
    let n: usize = chars_of(s).len();
    out.append(s);
    if n < width {
        push_repeated(out, " ", width - n);
        proof {
            assert(out@ =~= old(out)@ + padded(s@, width as nat));
        }
    }
}

fn push_bar(out: &mut String)
    ensures
        final(out)@ == old(out)@ + bar(),
{
    out.append(DIM);
    out.append("│");
    out.append(RST);
    proof {
        assert(out@ =~= old(out)@ + bar());
    }
}

fn frame(left: &str, middle: &str, right: &str, label: usize, value: usize) -> (line: String)
    ensures
        line@ == frame_line(left@, middle@, right@, label as nat, value as nat),
{
    let mut line: String = "  ".to_owned();
    line.append(DIM);
    line.append(left);
    line.append("─");
    push_repeated(&mut line, "─", label);
    line.append("─");
    line.append(middle);
    line.append("─");
    push_repeated(&mut line, "─", value);
    line.append("─");
    line.append(right);
    line.append(RST);
    line
}

fn title(label: usize, value: usize) -> (line: String)
    ensures
        line@ == title_line(label as nat, value as nat),
{
    let mut line: String = "  ".to_owned();
    push_bar(&mut line);
    line.append(" ");
    line.append(BOLD);
    push_padded(&mut line, "var", label);
    line.append(RST);
    line.append(" ");
    push_bar(&mut line);
    line.append(" ");
    line.append(BOLD);
    push_padded(&mut line, "bytes", value);
    line.append(RST);
    line.append(" ");
    push_bar(&mut line);
    line
}

fn cells(label: &str, value: &str, label_width: usize, value_width: usize) -> (line: String)
    ensures
        line@ == cell_line(label@, value@, label_width as nat, value_width as nat),
{
    let mut line: String = "  ".to_owned();
    push_bar(&mut line);
    line.append(" ");
    push_padded(&mut line, label, label_width);
    line.append(" ");
    push_bar(&mut line);
    line.append(" ");
    push_padded(&mut line, value, value_width);
    line.append(" ");
    push_bar(&mut line);
    line
}

fn width_of(cells: &Vec<String>, least: usize) -> (width: usize)
    ensures
        width == widest(texts(cells@), cells@.len(), least as nat),
{
    let mut width: usize = least;
    let mut k: usize = 0;
    while k < cells.len()
        invariant
            k <= cells@.len(),
            width == widest(texts(cells@), k as nat, least as nat),
        decreases cells@.len() - k,
    {
        let bytes: usize = cells[k].as_str().as_bytes().len();
        if bytes > width {
            width = bytes;
        }
        k += 1;
    }
    width
}

impl Env {
    /// The registers as a table, a line each.
    pub fn table(&self) -> (lines: Vec<String>)
        requires
            self.wf(),
        ensures
            texts(lines@) == table_text(self@),
    {
        let mut lines: Vec<String> = Vec::new();
        let n: usize = self.slots.len();
        proof {
            assert(n == self@.len());
        }
        if n == 0 {
            proof {
                assert(texts(lines@) =~= table_text(self@));
            }
            return lines;
        }
        let mut names: Vec<String> = Vec::new();
        let mut held: Vec<String> = Vec::new();
        let mut i: usize = 0;
        while i < n
            invariant
                self.wf(),
                n == self.slots@.len() == self@.len(),
                i <= n,
                names@.len() == i,
                held@.len() == i,
                forall|j: int| 0 <= j < i ==> (#[trigger] names@[j])@ == register_label(j as nat),
                forall|j: int| 0 <= j < i ==> (#[trigger] held@[j])@ == register_text(self@[j]),
            decreases n - i,
        {
            let mut name: String = "v".to_owned();
            push_decimal(&mut name, i as u64);
            names.push(name);
            let shown: String = match &self.slots[i] {
                None => "(unbound)".to_owned(),
                Some(slot) => fmt_slot(slot),
            };
            proof {
                assert(shown@ == register_text(self@[i as int]));
            }
            held.push(shown);
            i += 1;
        }
        let label: usize = width_of(&names, 3);
        let value: usize = width_of(&held, 5);
        proof {
            assert(texts(names@) =~= labels(self@));
            assert(texts(held@) =~= values(self@));
        }
        lines.push(frame("┌", "┬", "┐", label, value));
        lines.push(title(label, value));
        lines.push(frame("├", "┼", "┤", label, value));
        let ghost head = texts(lines@);
        proof {
            assert(head =~= seq![
                frame_line("┌"@, "┬"@, "┐"@, label as nat, value as nat),
                title_line(label as nat, value as nat),
                frame_line("├"@, "┼"@, "┤"@, label as nat, value as nat),
            ]);
        }
        let mut i: usize = 0;
        let ghost rows = Seq::new(
            n as nat,
            |i: int| cell_line(labels(self@)[i], values(self@)[i], label as nat, value as nat),
        );
        proof {
            assert(head + rows.take(0) =~= head);
        }
        while i < n
            invariant
                n == self@.len(),
                i <= n,
                names@.len() == n,
                held@.len() == n,
                texts(names@) == labels(self@),
                texts(held@) == values(self@),
                rows == Seq::new(
                    n as nat,
                    |i: int|
                        cell_line(labels(self@)[i], values(self@)[i], label as nat, value as nat),
                ),
                texts(lines@) == head + rows.take(i as int),
            decreases n - i,
        {
            let ghost before = lines@;
            let line: String = cells(names[i].as_str(), held[i].as_str(), label, value);
            proof {
                assert(texts(names@)[i as int] == names@[i as int]@);
                assert(texts(held@)[i as int] == held@[i as int]@);
                assert(line@ == rows[i as int]);
            }
            lines.push(line);
            proof {
                assert(texts(lines@) =~= texts(before).push(rows[i as int]));
                assert(rows.take(i + 1) =~= rows.take(i as int).push(rows[i as int]));
            }
            i += 1;
        }
        let ghost before = lines@;
        lines.push(frame("└", "┴", "┘", label, value));
        proof {
            assert(rows.take(n as int) =~= rows);
            assert(texts(lines@) =~= texts(before).push(
                frame_line("└"@, "┴"@, "┘"@, label as nat, value as nat),
            ));
            assert(table_text(self@) =~= head + rows + seq![
                frame_line("└"@, "┴"@, "┘"@, label as nat, value as nat),
            ]);
        }
        lines
    }
}

// ---- frames -----------------------------------------------------------------

/// One level of the loops: its scan, and the row it is on.
pub struct Frame<S: FactStore> {
    cursor: Option<S::Scan>,
    current: Option<Slot>,
}

impl<S: FactStore> Frame<S> {
    /// What the scan has left, if the level is open.
    pub closed spec fn left(self) -> Option<Seq<Fact>> {
        iter::scan_left(self.cursor)
    }

    /// The row the level is on, if it is on one.
    pub closed spec fn row(self) -> Option<Fact> {
        content(self.current)
    }

    /// Whether a row may fail to be read.
    pub closed spec fn may_fail(self) -> bool {
        self.cursor matches Some(scan) && scan.may_fail()
    }

    /// The scan yields whole rows, and a row the level is on is a whole row.
    pub closed spec fn wf(self) -> bool {
        &&& holds_a_row(self.current)
        &&& self.cursor matches Some(scan) ==> iter::whole_rows(scan.remaining())
    }

    /// A frame that has not been opened.
    pub fn closed() -> (frame: Self)
        ensures
            frame.left() is None,
            frame.row() is None,
            !frame.may_fail(),
            frame.wf(),
    {
        Self { cursor: None, current: None }
    }

    /// What every row of the level begins with: its predicate, then its seek, with the
    /// registers' bytes spliced in.
    fn build_prefix(generator: &Generator, env: &Env) -> (made: Result<Vec<u8>, ApertureError>)
        requires
            env.wf(),
        ensures
            match (made, machine::prefix(env@, *generator)) {
                (Ok(prefix), Ok(expected)) => prefix@ == expected,
                (Err(e), Err(expected)) => e == expected,
                _ => false,
            },
    {
        let mut prefix: Vec<u8> = Vec::new();
        put_big_endian(&mut prefix, generator.access.predicate_id.0 as u64, 4);
        let ghost predicate = tuple::big_endian(generator.access.predicate_id.0 as nat, 4);
        proof {
            assert(prefix@ =~= predicate);
        }
        match &generator.access.seek_key {
            SeekKey::Prefix(bytes) => {
                append_bytes(&mut prefix, bytes);
            },
            SeekKey::Composite(parts) => {
                let mut k: usize = 0;
                while k < parts.len()
                    invariant
                        env.wf(),
                        generator.access.seek_key == SeekKey::Composite(*parts),
                        predicate == tuple::big_endian(
                            generator.access.predicate_id.0 as nat,
                            4,
                        ),
                        k <= parts@.len(),
                        match machine::parts_bytes(env@, parts@, k as nat) {
                            Ok(made) => prefix@ == predicate + made,
                            Err(_) => false,
                        },
                    decreases parts@.len() - k,
                {
                    let failed: Option<ApertureError> = match &parts[k] {
                        SeekKeyPart::Bytes(bytes) => {
                            append_bytes(&mut prefix, bytes);
                            None
                        },
                        SeekKeyPart::RegisterField { address, path } => match env.field(
                            *address,
                            path,
                        ) {
                            Ok(field) => {
                                append_bytes(&mut prefix, as_bytes(&field));
                                None
                            },
                            Err(e) => Some(e),
                        },
                        SeekKeyPart::RegisterFactId(address) => match env.fact_id(*address) {
                            Ok(id) => {
                                put_fact_id(&mut prefix, id);
                                None
                            },
                            Err(e) => Some(e),
                        },
                    };
                    if let Some(e) = failed {
                        proof {
                            machine::lemma_parts_fail(
                                env@,
                                parts@,
                                (k + 1) as nat,
                                parts@.len(),
                            );
                        }
                        return Err(e);
                    }
                    proof {
                        let made = machine::parts_bytes(env@, parts@, (k + 1) as nat)->Ok_0;
                        assert(prefix@ =~= predicate + made);
                    }
                    k += 1;
                }
            },
        }
        Ok(prefix)
    }

    /// Open the level: scan the rows that begin with its prefix, or go on from
    /// `resume_at`.
    fn open(
        &mut self,
        store: &S,
        generator: &Generator,
        env: &Env,
        resume_at: Option<&[u8]>,
    ) -> (opened: Result<(), ApertureError>)
        requires
            env.wf(),
        ensures
            match (opened, machine::prefix(env@, *generator)) {
                (Ok(_), Ok(p)) => {
                    &&& final(self).left() == Some(
                        match resume_at {
                            Some(lo) => plan::between(store.facts(), lo@, bytes::successor(p)),
                            None => machine::matching(store.facts(), p),
                        },
                    )
                    &&& final(self).row() is None
                    &&& final(self).wf()
                    &&& final(self).may_fail() ==> store.may_fail()
                    &&& resume_at matches Some(lo) ==> lo@.len() >= 4
                },
                (Err(e), Err(expected)) => e == expected,
                (Err(e), Ok(_)) => {
                    ||| store.may_fail()
                    ||| resume_at matches Some(lo) && lo@.len() < 4 && e == ApertureError::Store(
                        StoreError::ShortScanBound { len: lo@.len() as usize, expected: 4 },
                    )
                },
                _ => false,
            },
    {
        let prefix: Vec<u8> = match Self::build_prefix(generator, env) {
            Ok(prefix) => prefix,
            Err(e) => return Err(e),
        };
        proof {
            machine::lemma_prefix_len(env@, *generator);
            machine::lemma_between_is_matching(store.facts(), prefix@);
        }
        let hi: Option<Vec<u8>> = strinc(&prefix);
        let end: Option<&[u8]> = match &hi {
            Some(bytes) => Some(bytes.as_slice()),
            None => None,
        };
        let lo: &[u8] = match resume_at {
            Some(lo) => lo,
            None => &prefix,
        };
        match store.scan(lo, end) {
            Ok(scan) => {
                proof {
                    lemma_range_rows(store.facts(), lo@, plan::bound_bytes(end));
                }
                self.cursor = Some(scan);
                self.current = None;
                Ok(())
            },
            Err(e) => Err(e),
        }
    }

    /// The next row the level admits.
    fn next(&mut self, generator: &Generator, env: &Env) -> (found: Result<
        Option<Slot>,
        ApertureError,
    >)
        requires
            env.wf(),
            old(self).wf(),
        ensures
            match old(self).left() {
                None => found == Err::<Option<Slot>, ApertureError>(
                    ApertureError::AdvanceAfterClose,
                ) && *final(self) == *old(self),
                Some(left) => match (found, machine::sought(env@, *generator, left)) {
                    (Ok(row), Ok((expected, rest))) => {
                        &&& holds_a_row(row)
                        &&& content(row) == expected
                        &&& final(self).left() == Some(rest)
                        &&& final(self).wf()
                        &&& final(self).may_fail() == old(self).may_fail()
                        &&& final(self).row() == (if row is Some {
                            expected
                        } else {
                            old(self).row()
                        })
                    },
                    (Err(e), Err(expected)) if e == expected => true,
                    (Err(_), _) => old(self).may_fail(),
                    _ => false,
                },
            },
    {
        if self.cursor.is_none() {
            return Err(ApertureError::AdvanceAfterClose);
        }
        let ghost all = self.cursor->0.remaining();
        loop
            invariant
                env.wf(),
                self.wf(),
                self.may_fail() == old(self).may_fail(),
                self.current == old(self).current,
                old(self).left() == Some(all),
                self.cursor is Some,
                machine::sought(env@, *generator, all) == machine::sought(
                    env@,
                    *generator,
                    self.cursor->0.remaining(),
                ),
            decreases self.cursor->0.remaining().len(),
        {
            let ghost left = self.cursor->0.remaining();
            let row = match &mut self.cursor {
                Some(scan) => scan.next_row(),
                None => None,
            };
            let (full_key, fact_id): (ByteView, FactId) = match row {
                None => return Ok(None),
                Some(Ok(read)) => read,
                Some(Err(e)) => return Err(e),
            };
            proof {
                assert(self.cursor->0.remaining() == left.skip(1));
                assert forall|i: int| 0 <= i < left.skip(1).len() implies (
                #[trigger] left.skip(1)[i]).row.len() >= 4 by {
                    assert(left.skip(1)[i] == left[i + 1]);
                }
            }
            let slot = Slot::Fact { id: fact_id, key: full_key };
            proof {
                assert(slot.fact() == left[0]);
            }
            match check_residuals(&generator.residuals, &slot, env) {
                Err(e) => return Err(e),
                Ok(false) => {},
                Ok(true) => {
                    self.current = Some(slot.clone());
                    return Ok(Some(slot));
                },
            }
        }
    }
}

/// The rows of a range name the predicate its lower bound does.
pub proof fn lemma_range_rows(facts: Seq<Fact>, lo: Seq<u8>, hi: Option<Seq<u8>>)
    requires
        lo.len() >= 4,
    ensures
        iter::whole_rows(plan::between(facts, lo, hi)),
{
    let kept = |f: Fact| plan::in_range(f.row, lo, hi);
    assert forall|i: int| 0 <= i < plan::between(facts, lo, hi).len() implies (
    #[trigger] plan::between(facts, lo, hi)[i]).row.len() >= 4 by {
        facts.lemma_filter_pred(kept, i);
    }
}

/// Whether a row passes some filters: whether each field is what its filter asks.
fn check_residuals(residuals: &[Residual], slot: &Slot, env: &Env) -> (passes: Result<
    bool,
    ApertureError,
>)
    requires
        env.wf(),
        slot.wf(),
        slot is Fact,
    ensures
        passes == machine::passes(env@, residuals@, slot.fact(), residuals@.len()),
{
    let ghost fact = slot.fact();
    let mut k: usize = 0;
    while k < residuals.len()
        invariant
            env.wf(),
            slot.wf(),
            slot is Fact,
            fact == slot.fact(),
            k <= residuals@.len(),
            machine::passes(env@, residuals@, fact, k as nat) == Ok::<bool, ApertureError>(true),
        decreases residuals@.len() - k,
    {
        let residual: &Residual = &residuals[k];
        let passes: Result<bool, ApertureError> = match slot.at_path(&residual.path) {
            Err(e) => Err(e),
            Ok(field) => match &residual.op {
                ResidualOp::EqConst(bytes) => Ok(same_bytes(as_bytes(&field), bytes)),
                ResidualOp::Prefix(bytes) => Ok(starts_with(as_bytes(&field), bytes)),
                ResidualOp::EqRegisterField { address, path } => match env.field(*address, path) {
                    Ok(other) => Ok(same_bytes(as_bytes(&field), as_bytes(&other))),
                    Err(e) => Err(e),
                },
                ResidualOp::EqRegisterFactId(address) => match env.fact_id(*address) {
                    Ok(id) => {
                        let mut reference: Vec<u8> = Vec::new();
                        put_fact_id(&mut reference, id);
                        proof {
                            assert(reference@ =~= tuple::enc_fact(id));
                        }
                        Ok(same_bytes(as_bytes(&field), &reference))
                    },
                    Err(e) => Err(e),
                },
            },
        };
        proof {
            assert(passes == machine::passes(env@, residuals@, fact, (k + 1) as nat));
        }
        match passes {
            Ok(true) => {},
            other => {
                proof {
                    machine::lemma_passes_decided(
                        env@,
                        residuals@,
                        fact,
                        (k + 1) as nat,
                        residuals@.len(),
                    );
                }
                return other;
            },
        }
        k += 1;
    }
    Ok(true)
}

// ---- the pump ---------------------------------------------------------------

/// Where frames stand, the level under way being `level`.
pub open spec fn place_of<S: FactStore>(frames: Seq<Frame<S>>, level: nat) -> Place {
    Place {
        stack: Seq::new(level, |i: int| frames[i].row()->0),
        rest: Seq::new(level, |i: int| frames[i].left()->0),
        open: if level < frames.len() {
            frames[level as int].left()
        } else {
            None
        },
        last: if level < frames.len() {
            frames[level as int].row()
        } else {
            None
        },
    }
}

/// The frames of a run: the outer ones are open and on a row, the inner ones closed.
pub open spec fn frames_ok<S: FactStore>(frames: Seq<Frame<S>>, store: S, level: nat) -> bool {
    &&& level <= frames.len()
    &&& forall|i: int|
        0 <= i < frames.len() ==> (#[trigger] frames[i]).wf() && (frames[i].may_fail()
            ==> store.may_fail())
    &&& forall|i: int|
        0 <= i < level ==> (#[trigger] frames[i]).left() is Some && frames[i].row() is Some
    &&& level < frames.len() && frames[level as int].left() is None ==> frames[level as int].row()
        is None
    &&& forall|i: int|
        level < i < frames.len() ==> (#[trigger] frames[i]).left() is None && frames[i].row()
            is None
}

/// What taking the next row of the level under way leaves to do: into the level inside,
/// where there is a row; back outside, where there is none.
proof fn lemma_taken(at: Place, facts: Seq<Fact>, body: Seq<Generator>, nvars: nat)
    requires
        at.wf(facts, body, nvars),
        at.depth() < body.len(),
        at.open is Some,
        plan::sorted(facts),
        machine::stray(body[at.depth() as int].binds@, nvars, 0) is None,
    ensures
        ({
            let before = at.pending(facts, body, nvars);
            match machine::sought(at.env(body, nvars), body[at.depth() as int], at.open->0) {
                Err(e) => before.rows.len() == 0 && before.error == Some(e),
                Ok((Some(fact), rest)) => {
                    let next = entered_by(at, fact, rest);
                    let after = next.pending(facts, body, nvars);
                    &&& machine::admits(
                        at.env(body, nvars),
                        body[at.depth() as int],
                        fact,
                    ) == Ok::<bool, ApertureError>(true)
                    &&& next.wf(facts, body, nvars)
                    &&& at.faithful(facts, body, nvars) ==> next.faithful(facts, body, nvars)
                    &&& after.rows == before.rows
                    &&& after.error == before.error
                    &&& after.steps < before.steps
                },
                Ok((None, _)) => {
                    if at.depth() == 0 {
                        before.rows.len() == 0 && before.error is None
                    } else {
                        let next = at.left();
                        let after = next.pending(facts, body, nvars);
                        &&& next.wf(facts, body, nvars)
                        &&& at.faithful(facts, body, nvars) ==> next.faithful(
                            facts,
                            body,
                            nvars,
                        )
                        &&& after.rows == before.rows
                        &&& after.error == before.error
                        &&& after.steps < before.steps
                    }
                },
            }
        }),
{
    machine::lemma_sought(at, facts, body, nvars);
    match machine::sought(at.env(body, nvars), body[at.depth() as int], at.open->0) {
        Err(e) => {},
        Ok((Some(fact), rest)) => {
            let reached = Place { open: Some(seq![fact] + rest), ..at };
            assert((seq![fact] + rest)[0] == fact);
            assert((seq![fact] + rest).skip(1) =~= rest);
            machine::lemma_entered(reached, facts, body, nvars);
            assert(reached.entered() =~= entered_by(at, fact, rest));
        },
        Ok((None, rest)) => {
            let dry = Place { open: Some(rest), ..at };
            if at.depth() > 0 {
                machine::lemma_exhausted(dry, facts, body, nvars);
                assert(dry.left() =~= at.left());
            }
        },
    }
}

/// Inside the level under way, which is on `fact` and has `rest` left.
pub open spec fn entered_by(at: Place, fact: Fact, rest: Seq<Fact>) -> Place {
    Place { stack: at.stack.push(fact), rest: at.rest.push(rest), open: None, last: None }
}

/// What a suspended pump is taken up again from: the row each level was on, and whether
/// it had run out or not begun.
pub struct Token {
    pub keys: Seq<Fact>,
    pub done: bool,
    pub started: bool,
}

/// A suspended pump.
pub struct Resume {
    keys: Vec<Slot>,
    done: bool,
    started: bool,
}

/// The facts some slots hold.
pub open spec fn facts_of(slots: Seq<Slot>) -> Seq<Fact> {
    slots.map_values(|slot: Slot| slot.fact())
}

impl View for Resume {
    type V = Token;

    closed spec fn view(&self) -> Token {
        Token { keys: facts_of(self.keys@), done: self.done, started: self.started }
    }
}

impl Resume {
    #[verifier::type_invariant]
    spec fn names_a_row(self) -> bool {
        self.started && !self.done ==> self.keys@.len() > 0
    }
}

/// What a turn of the pump came to: a row, or the end.
#[derive(Debug, Clone, Copy, PartialEq, Eq, Structural)]
pub enum Step {
    Continue,
    Done,
}

/// A plan running against a store, a row at a time.
pub struct Executor<S: FactStore> {
    store: Arc<S>,
    plan: Arc<Plan>,
    env: Env,
    frames: Vec<Frame<S>>,
    level: usize,
    started: bool,
    done: bool,
    /// How many levels have ever admitted a row.
    reached: Ghost<nat>,
}

impl<S: FactStore> Executor<S> {
    /// The store the plan runs against.
    pub closed spec fn source(self) -> S {
        *self.store
    }

    /// The plan.
    pub closed spec fn program(self) -> Plan {
        *self.plan
    }

    /// The levels of the plan.
    pub open spec fn body(self) -> Seq<Generator> {
        self.program().body@
    }

    /// How many registers the plan has.
    pub open spec fn nvars(self) -> nat {
        self.program().nvars as nat
    }

    /// What the registers hold.
    pub closed spec fn registers(self) -> Seq<Option<Fact>> {
        self.env@
    }

    /// Whether the pump has turned.
    pub closed spec fn has_started(self) -> bool {
        self.started
    }

    /// Whether the pump has run out.
    pub closed spec fn is_done(self) -> bool {
        self.done
    }

    /// Where the run stands.
    pub closed spec fn place(self) -> Place {
        place_of(self.frames@, self.level as nat)
    }

    /// Everything the run has yet to do from where it stands.
    #[verifier::opaque]
    pub open spec fn to_come(self) -> Run {
        self.place().pending(self.source().facts(), self.body(), self.nvars())
    }

    /// Everything the pump has yet to do.
    pub open spec fn pending(self) -> Run {
        if self.is_done() {
            Run::nothing()
        } else {
            self.to_come()
        }
    }

    /// Whether every level is on one of its own candidates.
    #[verifier::opaque]
    pub open spec fn faithful(self) -> bool {
        self.place().faithful(self.source().facts(), self.body(), self.nvars())
    }

    /// The same run with another level under way.
    spec fn at_level(self, level: nat) -> Self {
        Executor { level: level as usize, ..self }
    }

    /// A run that no error has ended, within or between two turns.
    #[verifier::opaque]
    closed spec fn running(self) -> bool {
        let (body, nvars) = (self.plan.body@, self.plan.nvars as nat);
        &&& machine::binds_once(body)
        &&& iter::binds_registers(*self.plan)
        &&& self.frames@.len() == body.len()
        &&& self.level <= self.frames@.len()
        &&& self.env.wf()
        &&& self.place().wf(self.store.facts(), body, nvars)
        &&& machine::agrees(body, nvars, self.place().stack, self.env@, self.reached@)
        &&& frames_ok(self.frames@, *self.store, self.level as nat)
    }

    /// A pump that no error has ended.
    pub closed spec fn wf(self) -> bool {
        &&& self.running()
        &&& self.level < self.frames@.len() || self.level == 0
        &&& self.done ==> self.started
        &&& self.done || !self.started ==> self.place() == Place::start()
        &&& self.started && !self.done ==> self.place().last is Some
    }

    /// Whether an error is the one the run comes to before its next row.
    pub open spec fn fails_with(self, e: ApertureError) -> bool {
        self.pending().rows.len() == 0 && self.pending().error == Some(e)
    }

    /// The row each level is on.
    pub open spec fn cursor_rows(self) -> Seq<Fact> {
        match self.place().last {
            Some(fact) => self.place().stack.push(fact),
            None => self.place().stack,
        }
    }

    /// A pump that has not turned yet.
    pub fn new(store: Arc<S>, plan: Arc<Plan>) -> (executor: Self)
        requires
            machine::binds_once(plan.body@),
            iter::binds_registers(*plan),
        ensures
            executor.wf(),
            executor.source() == *store,
            executor.program() == *plan,
            executor.place() == Place::start(),
            !executor.is_done(),
            !executor.has_started(),
            executor.faithful(),
            executor.pending() == machine::run(
                store.facts(),
                plan.body@,
                machine::unbound(plan.nvars as nat),
                0,
            ),
    {
        proof {
            reveal(Executor::running);
            reveal(Executor::to_come);
            reveal(Executor::faithful);
        }
        let n: usize = plan.body.len();
        let env = Env::new(plan.nvars);
        let mut frames: Vec<Frame<S>> = Vec::new();
        let mut i: usize = 0;
        while i < n
            invariant
                i <= n,
                frames@.len() == i,
                forall|j: int|
                    0 <= j < i ==> (#[trigger] frames@[j]).left() is None && frames@[j].row()
                        is None && frames@[j].wf() && !frames@[j].may_fail(),
            decreases n - i,
        {
            frames.push(Frame::closed());
            i += 1;
        }
        let executor = Self {
            store,
            plan,
            env,
            frames,
            level: 0,
            started: false,
            done: false,
            reached: Ghost(0nat),
        };
        proof {
            assert(executor.place() =~= Place::start());
            let run = machine::run(
                store.facts(),
                plan.body@,
                machine::unbound(plan.nvars as nat),
                0,
            );
            assert(run.chain(Run::nothing()) =~= run);
        }
        executor
    }

    /// The registers.
    pub fn env(&self) -> (env: &Env)
        requires
            self.wf(),
        ensures
            env@ == self.registers(),
            env.wf(),
    {
        proof {
            reveal(Executor::running);
        }
        &self.env
    }

    /// The level under way reads the registers as its outer rows bind them.
    proof fn lemma_ready(self)
        requires
            self.running(),
            self.level < self.frames@.len(),
        ensures
            self.frames@.len() == self.body().len(),
            self.place().depth() == self.level,
            self.env.wf(),
            self.frames@[self.level as int].wf(),
            self.frames@[self.level as int].may_fail() ==> self.source().may_fail(),
            self.place().open == self.frames@[self.level as int].left(),
            machine::same_to(
                self.env@,
                self.place().env(self.body(), self.nvars()),
                self.body()[self.level as int],
            ),
            machine::stray(self.body()[self.level as int].binds@, self.nvars(), 0) is None,
            self.env@.len() == self.nvars(),
            self.place().wf(self.source().facts(), self.body(), self.nvars()),
            plan::sorted(self.source().facts()),
    {
        reveal(Executor::running);
        machine::lemma_agrees_reads(
            self.body(),
            self.nvars(),
            self.place().stack,
            self.env@,
            self.reached@,
        );
        self.store.facts_are_sorted();
        assert(machine::stray(
            self.plan.body@[self.level as int].binds@,
            self.plan.nvars as nat,
            0,
        ) is None);
    }

    proof fn lemma_level(self)
        requires
            self.running(),
        ensures
            self.level <= self.frames@.len(),
            self.frames@.len() == self.body().len(),
    {
        reveal(Executor::running);
    }

    /// Open the level under way.
    fn open_level(&mut self, resume_at: Option<&[u8]>) -> (opened: Result<(), ApertureError>)
        requires
            old(self).running(),
            old(self).level < old(self).frames@.len(),
            old(self).place().open is None,
        ensures
            final(self).source() == old(self).source(),
            final(self).program() == old(self).program(),
            final(self).started == old(self).started,
            final(self).done == old(self).done,
            ({
                let at = old(self).place();
                let (body, nvars) = (old(self).body(), old(self).nvars());
                let facts = old(self).source().facts();
                match (opened, machine::prefix(at.env(body, nvars), body[at.depth() as int])) {
                    (Ok(_), Ok(p)) => {
                        &&& final(self).running()
                        &&& final(self).level == old(self).level
                        &&& final(self).frames@.len() == old(self).frames@.len()
                        &&& final(self).place() == at.opened(
                            match resume_at {
                                Some(lo) => plan::between(facts, lo@, bytes::successor(p)),
                                None => machine::matching(facts, p),
                            },
                        )
                        &&& resume_at matches Some(lo) ==> lo@.len() >= 4
                    },
                    (Err(e), Err(expected)) if e == expected => true,
                    (Err(e), found) => old(self).source().may_fail() || (found is Ok && (
                    resume_at matches Some(lo) && lo@.len() < 4 && e == ApertureError::Store(
                        StoreError::ShortScanBound { len: lo@.len() as usize, expected: 4 },
                    ))),
                    _ => false,
                }
            }),
    {
        let ghost at = self.place();
        let ghost env = at.env(self.body(), self.nvars());
        let level: usize = self.level;
        proof {
            self.lemma_ready();
            machine::lemma_prefix_agrees(self.env@, env, self.body()[level as int]);
        }
        let opened = self.frames[level].open(
            &self.store,
            &self.plan.body[level],
            &self.env,
            resume_at,
        );
        proof {
            if opened is Ok {
                old(self).lemma_opened(*self, resume_at);
            }
        }
        opened
    }

    proof fn lemma_opened(self, after: Self, resume_at: Option<&[u8]>)
        requires
            self.running(),
            self.level < self.frames@.len(),
            self.place().open is None,
            after == (Executor { frames: after.frames, ..self }),
            after.frames@ == self.frames@.update(
                self.level as int,
                after.frames@[self.level as int],
            ),
            ({
                let frame = after.frames@[self.level as int];
                let p = machine::prefix(
                    self.place().env(self.body(), self.nvars()),
                    self.body()[self.level as int],
                );
                let facts = self.source().facts();
                &&& p is Ok
                &&& frame.wf()
                &&& frame.may_fail() ==> self.source().may_fail()
                &&& frame.row() is None
                &&& frame.left() == Some(
                    match resume_at {
                        Some(lo) => plan::between(facts, lo@, bytes::successor(p->Ok_0)),
                        None => machine::matching(facts, p->Ok_0),
                    },
                )
            }),
        ensures
            after.running(),
            after.place() == self.place().opened(
                after.frames@[self.level as int].left()->0,
            ),
    {
        reveal(Executor::running);
        let at = self.place();
        let (facts, body, nvars) = (self.source().facts(), self.body(), self.nvars());
        let p = machine::prefix(at.env(body, nvars), body[self.level as int])->Ok_0;
        assert(after.place() =~= at.opened(after.frames@[self.level as int].left()->0));
        match resume_at {
            Some(lo) => machine::lemma_opened_over(
                at,
                facts,
                body,
                nvars,
                lo@,
                bytes::successor(p),
            ),
            None => machine::lemma_opened(at, facts, body, nvars, p),
        }
    }

    /// Back to the level outside, the level under way being closed or past its row.
    proof fn lemma_stepped_back(self)
        requires
            self.running(),
            0 < self.level,
            self.place().open is None,
        ensures
            self.at_level((self.level - 1) as nat).running(),
            self.at_level((self.level - 1) as nat).place() == self.place().left(),
    {
        reveal(Executor::running);
        let at = self.place();
        let after = self.at_level((self.level - 1) as nat);
        let (facts, body, nvars) = (self.source().facts(), self.body(), self.nvars());
        machine::lemma_left(at, facts, body, nvars);
        machine::lemma_agrees_left(body, nvars, at.stack, self.env@, self.reached@);
        assert(after.place() =~= at.left());
    }

    /// Bind a row to the level's registers.
    fn bind(&mut self, level: usize, slot: Slot)
        requires
            old(self).env.wf(),
            slot.wf(),
            slot is Fact,
            level < old(self).body().len(),
            level < old(self).frames@.len(),
            machine::stray(old(self).body()[level as int].binds@, old(self).env@.len(), 0) is None,
            old(self).frames@[level as int].wf(),
        ensures
            *final(self) == (Executor {
                env: final(self).env,
                frames: final(self).frames,
                ..*old(self)
            }),
            final(self).env.wf(),
            final(self).env@ == machine::bound(
                old(self).env@,
                old(self).body()[level as int].binds@,
                slot.fact(),
            ),
            final(self).frames@ == old(self).frames@.update(
                level as int,
                final(self).frames@[level as int],
            ),
            final(self).frames@[level as int].wf(),
            final(self).frames@[level as int].row() == Some(slot.fact()),
            final(self).frames@[level as int].left() == old(self).frames@[level as int].left(),
            final(self).frames@[level as int].may_fail() == old(
                self,
            ).frames@[level as int].may_fail(),
    {
        self.env.bind(&self.plan.body[level].binds, &slot);
        self.frames[level].current = Some(slot);
    }

    /// Take the next row of the level under way and bind it; where there is none, close
    /// the level.
    fn take_row(&mut self) -> (taken: Result<bool, ApertureError>)
        requires
            old(self).running(),
            old(self).level < old(self).frames@.len(),
            old(self).place().open is Some,
        ensures
            final(self).source() == old(self).source(),
            final(self).program() == old(self).program(),
            final(self).started == old(self).started,
            final(self).done == old(self).done,
            ({
                let at = old(self).place();
                let (body, nvars) = (old(self).body(), old(self).nvars());
                match (
                    taken,
                    machine::sought(at.env(body, nvars), body[at.depth() as int], at.open->0),
                ) {
                    (Ok(true), Ok((Some(fact), rest))) => {
                        &&& final(self).level == old(self).level
                        &&& final(self).frames@.len() == old(self).frames@.len()
                        &&& final(self).at_level(old(self).level as nat + 1).running()
                        &&& final(self).at_level(old(self).level as nat + 1).place() == entered_by(
                            at,
                            fact,
                            rest,
                        )
                    },
                    (Ok(false), Ok((None, _))) => {
                        &&& final(self).level == old(self).level
                        &&& final(self).frames@.len() == old(self).frames@.len()
                        &&& final(self).running()
                        &&& final(self).place() == (Place { open: None, last: None, ..at })
                    },
                    (Err(e), Err(expected)) if e == expected => true,
                    (Err(e), _) => old(self).source().may_fail(),
                    _ => false,
                }
            }),
    {
        let level: usize = self.level;
        proof {
            self.lemma_ready();
            machine::lemma_sought_agrees(
                self.env@,
                self.place().env(self.body(), self.nvars()),
                self.body()[level as int],
                self.place().open->0,
            );
        }
        let next = self.frames[level].next(&self.plan.body[level], &self.env);
        match next {
            Err(e) => Err(e),
            Ok(None) => {
                self.frames[level].cursor = None;
                self.frames[level].current = None;
                proof {
                    assert(self.frames@ =~= old(self).frames@.update(
                        level as int,
                        self.frames@[level as int],
                    ));
                    old(self).lemma_closed(*self);
                }
                Ok(false)
            },
            Ok(Some(slot)) => {
                let ghost fact = slot.fact();
                self.bind(level, slot);
                proof {
                    self.reached@ = if self.reached@ > level {
                        self.reached@
                    } else {
                        (level + 1) as nat
                    };
                    assert(self.frames@ =~= old(self).frames@.update(
                        level as int,
                        self.frames@[level as int],
                    ));
                    old(self).lemma_entered(*self, fact);
                }
                Ok(true)
            },
        }
    }

    proof fn lemma_closed(self, after: Self)
        requires
            self.running(),
            self.level < self.frames@.len(),
            after == (Executor { frames: after.frames, ..self }),
            after.frames@ == self.frames@.update(
                self.level as int,
                after.frames@[self.level as int],
            ),
            after.frames@[self.level as int].left() is None,
            after.frames@[self.level as int].row() is None,
            after.frames@[self.level as int].wf(),
            !after.frames@[self.level as int].may_fail(),
        ensures
            after.running(),
            after.place() == (Place { open: None, last: None, ..self.place() }),
    {
        reveal(Executor::running);
        assert(after.place() =~= (Place { open: None, last: None, ..self.place() }));
    }

    proof fn lemma_entered(self, after: Self, fact: Fact)
        requires
            self.running(),
            self.level < self.frames@.len(),
            self.place().open is Some,
            machine::sought(
                self.place().env(self.body(), self.nvars()),
                self.body()[self.level as int],
                self.place().open->0,
            ) matches Ok((Some(found), rest)) && found == fact && after.frames@[
                self.level as int
            ].left() == Some(rest),
            after == (Executor {
                frames: after.frames,
                env: after.env,
                reached: after.reached,
                ..self
            }),
            after.frames@ == self.frames@.update(
                self.level as int,
                after.frames@[self.level as int],
            ),
            after.frames@[self.level as int].row() == Some(fact),
            after.frames@[self.level as int].wf(),
            after.frames@[self.level as int].may_fail() ==> self.source().may_fail(),
            after.env.wf(),
            after.env@ == machine::bound(
                self.env@,
                self.body()[self.level as int].binds@,
                fact,
            ),
            after.reached@ == if self.reached@ > self.level {
                self.reached@
            } else {
                (self.level + 1) as nat
            },
        ensures
            after.at_level(self.level as nat + 1).running(),
            after.at_level(self.level as nat + 1).place() == entered_by(
                self.place(),
                fact,
                after.frames@[self.level as int].left()->0,
            ),
    {
        reveal(Executor::running);
        self.lemma_ready();
        let at = self.place();
        let next = after.at_level(self.level as nat + 1);
        let (facts, body, nvars) = (self.source().facts(), self.body(), self.nvars());
        let rest = after.frames@[self.level as int].left()->0;
        lemma_taken(at, facts, body, nvars);
        machine::lemma_agrees_entered(body, nvars, at.stack, self.env@, self.reached@, fact);
        assert(self.frames.len() == self.frames@.len());
        assert(next.level == self.level + 1);
        assert(next.place() =~= entered_by(at, fact, rest));
    }

    /// With every level on a row, the registers are the row's.
    proof fn lemma_row(self)
        requires
            self.running(),
            self.level == self.body().len(),
        ensures
            self.env@ == self.place().env(self.body(), self.nvars()),
    {
        reveal(Executor::running);
        let at = self.place();
        let (body, nvars) = (self.body(), self.nvars());
        let env = at.env(body, nvars);
        machine::lemma_env_len(body, nvars, at.stack, at.depth());
        assert forall|r: int| 0 <= r < nvars implies self.env@[r] == #[trigger] env[r] by {
            if env[r] is None && self.env@[r] is Some {
                assert(machine::bound_between(
                    body,
                    Address(r as usize),
                    at.stack.len(),
                    self.reached@,
                ));
            }
        }
        assert(self.env@ =~= env);
    }

    /// Run on to the next row.
    pub fn pump(&mut self) -> (step: Result<Step, ApertureError>)
        requires
            old(self).wf(),
            old(self).is_done() || old(self).body().len() > 0,
        ensures
            final(self).source() == old(self).source(),
            final(self).program() == old(self).program(),
            match step {
                Ok(Step::Done) => {
                    &&& final(self).wf()
                    &&& final(self).is_done()
                    &&& old(self).pending().rows.len() == 0
                    &&& old(self).pending().error is None
                },
                Ok(Step::Continue) => {
                    &&& final(self).wf()
                    &&& !final(self).is_done()
                    &&& final(self).has_started()
                    &&& old(self).pending().rows.len() > 0
                    &&& final(self).registers() == old(self).pending().rows[0]
                    &&& final(self).pending().rows == old(self).pending().rows.skip(1)
                    &&& final(self).pending().error == old(self).pending().error
                    &&& final(self).pending().steps < old(self).pending().steps
                    &&& old(self).faithful() ==> final(self).faithful() && machine::stopped(
                        final(self).place(),
                        final(self).source().facts(),
                        final(self).body(),
                        final(self).nvars(),
                        final(self).cursor_rows(),
                    )
                },
                Err(e) => {
                    &&& old(self).fails_with(e) || old(self).source().may_fail()
                    &&& final(self).has_started()
                    &&& !final(self).is_done()
                },
            },
            old(self).is_done() ==> step == Ok::<Step, ApertureError>(Step::Done) && *final(self)
                == *old(self),
    {
        if self.done {
            return Ok(Step::Done);
        }
        self.started = true;
        let n: usize = self.plan.body.len();
        let ghost facts = self.source().facts();
        let ghost body = self.body();
        let ghost nvars = self.nvars();
        proof {
            self.lemma_same_run(*old(self));
            self.lemma_level();
        }
        loop
            invariant
                self.running(),
                self.frames@.len() == n,
                self.started,
                !self.done,
                n == body.len(),
                self.level < n,
                !old(self).is_done(),
                self.source() == old(self).source(),
                self.program() == old(self).program(),
                facts == self.source().facts(),
                body == self.body(),
                nvars == self.nvars(),
                self.to_come().rows == old(self).to_come().rows,
                self.to_come().error == old(self).to_come().error,
                self.to_come().steps <= old(self).to_come().steps,
                old(self).faithful() ==> self.faithful(),
            decreases self.to_come().steps,
        {
            let ghost at = self.place();
            proof {
                self.lemma_ready();
                reveal(Executor::to_come);
                reveal(Executor::faithful);
            }
            if self.frames[self.level].cursor.is_none() {
                match self.open_level(None) {
                    Err(e) => return Err(e),
                    Ok(_) => {},
                }
                proof {
                    let p = machine::prefix(at.env(body, nvars), body[at.depth() as int])->Ok_0;
                    machine::lemma_opened(at, facts, body, nvars, p);
                }
            }
            let ghost opened = self.place();
            proof {
                self.lemma_ready();
                lemma_taken(opened, facts, body, nvars);
            }
            match self.take_row() {
                Err(e) => return Err(e),
                Ok(true) => {
                    if self.level == n - 1 {
                        proof {
                            self.lemma_yields(*old(self));
                        }
                        return Ok(Step::Continue);
                    }
                    self.level += 1;
                },
                Ok(false) => {
                    if self.level == 0 {
                        self.done = true;
                        proof {
                            self.lemma_finished();
                        }
                        return Ok(Step::Done);
                    }
                    proof {
                        self.lemma_stepped_back();
                        assert(self.place().left() =~= opened.left());
                    }
                    self.level -= 1;
                },
            }
        }
    }

    /// Two executors that differ in their flags alone stand at the same place.
    proof fn lemma_same_run(self, other: Self)
        requires
            other.running(),
            self == (Executor { started: self.started, done: self.done, ..other }),
        ensures
            self.running(),
            self.to_come() == other.to_come(),
            self.faithful() == other.faithful(),
            self.place() == other.place(),
    {
        reveal(Executor::running);
        reveal(Executor::to_come);
        reveal(Executor::faithful);
    }

    /// The innermost level is on a row: that is the next row of the run.
    proof fn lemma_yields(self, before: Self)
        requires
            self.level + 1 == self.body().len(),
            self.frames@.len() == self.body().len(),
            self.at_level(self.level as nat + 1).running(),
            self.started,
            !self.done,
            !before.done,
            self.source() == before.source(),
            self.program() == before.program(),
            ({
                let full = self.at_level(self.level as nat + 1);
                &&& full.to_come().rows == before.to_come().rows
                &&& full.to_come().error == before.to_come().error
                &&& full.to_come().steps < before.to_come().steps
                &&& before.faithful() ==> full.faithful()
            }),
        ensures
            self.wf(),
            before.pending().rows.len() > 0,
            self.registers() == before.pending().rows[0],
            self.pending().rows == before.pending().rows.skip(1),
            self.pending().error == before.pending().error,
            self.pending().steps < before.pending().steps,
            before.faithful() ==> self.faithful() && machine::stopped(
                self.place(),
                self.source().facts(),
                self.body(),
                self.nvars(),
                self.cursor_rows(),
            ),
    {
        reveal(Executor::to_come);
        reveal(Executor::faithful);
        let full = self.at_level(self.level as nat + 1);
        assert(self.frames.len() == self.frames@.len());
        assert(full.level == self.level + 1);
        assert(full.at_level(self.level as nat) == self);
        let at = full.place();
        let (facts, body, nvars) = (self.source().facts(), self.body(), self.nvars());
        full.lemma_row();
        full.lemma_stepped_back();
        assert(at.wf(facts, body, nvars)) by {
            reveal(Executor::running);
        }
        machine::lemma_yielded(at, facts, body, nvars);
        assert(self.cursor_rows() =~= at.stack);
        if before.faithful() {
            machine::lemma_stopped(at, facts, body, nvars);
        }
    }

    /// The outermost level has nothing left: the pump has run out.
    proof fn lemma_finished(self)
        requires
            (Executor { done: false, ..self }).running(),
            (Executor { done: false, ..self }).place().open is None,
            (Executor { done: false, ..self }).place().last is None,
            self.level == 0,
            self.started,
            self.done,
        ensures
            self.wf(),
    {
        self.lemma_same_run(Executor { done: false, ..self });
        assert(self.place() =~= Place::start());
    }

    /// The row each level is on, to take the run up again from.
    pub fn suspend(&self) -> (token: Resume)
        requires
            self.wf(),
        ensures
            token@ == (if self.is_done() {
                Token { keys: Seq::empty(), done: true, started: true }
            } else if !self.has_started() {
                Token { keys: Seq::empty(), done: false, started: false }
            } else {
                Token { keys: self.cursor_rows(), done: false, started: true }
            }),
    {
        let mut keys: Vec<Slot> = Vec::new();
        proof {
            assert(facts_of(keys@) =~= Seq::<Fact>::empty());
        }
        if self.done {
            return Resume { keys, done: true, started: true };
        }
        if !self.started {
            return Resume { keys, done: false, started: false };
        }
        proof {
            reveal(Executor::running);
            assert(self.cursor_rows().take(0) =~= Seq::<Fact>::empty());
        }
        let mut i: usize = 0;
        while i < self.frames.len()
            invariant
                self.wf(),
                self.started,
                !self.done,
                i <= self.frames@.len(),
                facts_of(keys@) == self.cursor_rows().take(
                    if i < self.cursor_rows().len() {
                        i as int
                    } else {
                        self.cursor_rows().len() as int
                    },
                ),
            decreases self.frames@.len() - i,
        {
            proof {
                reveal(Executor::running);
            }
            let ghost before = facts_of(keys@);
            proof {
                assert(self.frames@[i as int].wf());
            }
            if let Some(slot) = &self.frames[i].current {
                keys.push(slot.clone());
                proof {
                    assert(facts_of(keys@) =~= before.push(slot.fact()));
                    assert(self.cursor_rows()[i as int] == slot.fact());
                    assert(facts_of(keys@) =~= self.cursor_rows().take(i + 1));
                }
            }
            i += 1;
        }
        proof {
            assert(self.cursor_rows().take(self.cursor_rows().len() as int)
                =~= self.cursor_rows());
            assert(facts_of(keys@).len() == keys@.len());
        }
        Resume { keys, done: false, started: true }
    }

    /// Go back into the level inside, on the first row from the saved one on that the
    /// level under way admits.
    fn come_back(&mut self, saved: &Slot) -> (entered: Result<(), ApertureError>)
        requires
            old(self).running(),
            old(self).level < old(self).frames@.len(),
            old(self).place().open is None,
        ensures
            final(self).source() == old(self).source(),
            final(self).program() == old(self).program(),
            final(self).started == old(self).started,
            final(self).done == old(self).done,
            ({
                let at = old(self).place();
                let (body, nvars) = (old(self).body(), old(self).nvars());
                match (
                    entered,
                    machine::come_back(
                        old(self).source().facts(),
                        at.env(body, nvars),
                        body[at.depth() as int],
                        saved.fact(),
                        false,
                    ),
                ) {
                    (Ok(_), Ok((fact, rest))) => {
                        &&& final(self).running()
                        &&& final(self).frames@.len() == old(self).frames@.len()
                        &&& final(self).level == old(self).level + 1
                        &&& final(self).place() == entered_by(at, fact, rest)
                    },
                    (Err(e), Err(expected)) if e == expected => true,
                    (Err(_), _) => old(self).source().may_fail(),
                    _ => false,
                }
            }),
    {
        let row: ByteView = saved.bytes();
        proof {
            self.lemma_ready();
            assert(saved.whole() == saved.fact().row);
        }
        let ghost at = self.place();
        match self.open_level(Some(as_bytes(&row))) {
            Err(e) => return Err(e),
            Ok(_) => {},
        }
        proof {
            let lo = saved.fact().row;
            let p = machine::prefix(
                at.env(self.body(), self.nvars()),
                self.body()[at.depth() as int],
            )->Ok_0;
            assert(self.place().env(self.body(), self.nvars()) == at.env(
                self.body(),
                self.nvars(),
            ));
            assert(self.place().open == Some(
                plan::between(self.source().facts(), lo, bytes::successor(p)),
            ));
        }
        let ghost opened = self.place();
        match self.take_row() {
            Err(e) => return Err(e),
            Ok(false) => return Err(ApertureError::BadResumeKey),
            Ok(true) => {},
        }
        proof {
            assert(self.frames.len() == self.frames@.len());
            let next = self.at_level(self.level as nat + 1);
            assert(next == (Executor { level: (self.level + 1) as usize, ..*self }));
        }
        self.level += 1;
        Ok(())
    }

    /// Go back into level after level, on the saved rows.
    fn come_back_to(&mut self, keys: &Vec<Slot>) -> (entered: Result<(), ApertureError>)
        requires
            old(self).running(),
            old(self).level == 0,
            old(self).frames@.len() == old(self).body().len(),
            old(self).place() == Place::start(),
            keys@.len() <= old(self).body().len(),
        ensures
            final(self).source() == old(self).source(),
            final(self).program() == old(self).program(),
            final(self).started == old(self).started,
            final(self).done == old(self).done,
            match (
                entered,
                machine::resumed(
                    old(self).source().facts(),
                    old(self).body(),
                    old(self).nvars(),
                    facts_of(keys@),
                    keys@.len(),
                    false,
                ),
            ) {
                (Ok(_), Ok((stack, rest))) => {
                    &&& final(self).running()
                    &&& final(self).level == keys@.len()
                    &&& final(self).place() == (Place { stack, rest, open: None, last: None })
                },
                (Err(e), Err(expected)) if e == expected => true,
                (Err(_), _) => old(self).source().may_fail(),
                _ => false,
            },
    {
        let ghost facts = self.source().facts();
        let ghost body = self.body();
        let ghost nvars = self.nvars();
        let ghost saved = facts_of(keys@);
        let ghost mut stack: Seq<Fact> = Seq::empty();
        let ghost mut rest: Seq<Seq<Fact>> = Seq::empty();
        let mut k: usize = 0;
        while k < keys.len()
            invariant
                self.running(),
                self.source() == old(self).source(),
                self.program() == old(self).program(),
                self.started == old(self).started,
                self.done == old(self).done,
                facts == self.source().facts(),
                body == self.body(),
                nvars == self.nvars(),
                self.level == k,
                self.frames@.len() == body.len(),
                k <= keys@.len() <= body.len(),
                saved == facts_of(keys@),
                self.place() == (Place { stack, rest, open: None, last: None }),
                stack.len() == k,
                machine::resumed(facts, body, nvars, saved, k as nat, false) == Ok::<
                    (Seq<Fact>, Seq<Seq<Fact>>),
                    ApertureError,
                >((stack, rest)),
            decreases keys@.len() - k,
        {
            proof {
                assert(saved[k as int] == keys@[k as int].fact());
            }
            match self.come_back(&keys[k]) {
                Err(e) => {
                    proof {
                        machine::lemma_resumed_fails(
                            facts,
                            body,
                            nvars,
                            saved,
                            (k + 1) as nat,
                            saved.len(),
                            false,
                        );
                    }
                    return Err(e);
                },
                Ok(_) => {},
            }
            proof {
                stack = self.place().stack;
                rest = self.place().rest;
            }
            k += 1;
        }
        Ok(())
    }

    /// Take a suspended run up again. Each level goes back to the first row it admits
    /// from the saved one on.
    pub fn resume(store: Arc<S>, plan: Arc<Plan>, token: Resume) -> (taken_up: Result<
        Self,
        ApertureError,
    >)
        requires
            machine::binds_once(plan.body@),
            iter::binds_registers(*plan),
            token@.keys.len() <= plan.body@.len(),
        ensures
            ({
                let running = token@.started && !token@.done;
                let resumed = machine::resumed(
                    store.facts(),
                    plan.body@,
                    plan.nvars as nat,
                    token@.keys,
                    token@.keys.len(),
                    false,
                );
                match taken_up {
                    Ok(executor) => {
                        &&& executor.wf()
                        &&& executor.source() == *store
                        &&& executor.program() == *plan
                        &&& executor.is_done() == token@.done
                        &&& executor.has_started() == (token@.done || token@.started)
                        &&& running ==> (resumed matches Ok((stack, rest)) && executor.place()
                            == machine::resumption(stack, rest))
                        &&& !running ==> executor.place() == Place::start()
                    },
                    Err(e) => running && (resumed == Err::<
                        (Seq<Fact>, Seq<Seq<Fact>>),
                        ApertureError,
                    >(e) || store.may_fail()),
                }
            }),
    {
        proof {
            use_type_invariant(&token);
        }
        let mut executor = Executor::new(store, plan);
        if token.done {
            let ghost fresh = executor;
            executor.started = true;
            executor.done = true;
            proof {
                executor.lemma_same_run(fresh);
            }
            return Ok(executor);
        }
        if !token.started {
            return Ok(executor);
        }
        let ghost fresh = executor;
        executor.started = true;
        proof {
            executor.lemma_same_run(fresh);
            executor.lemma_level();
        }
        let keys: Vec<Slot> = token.keys;
        proof {
            assert(executor.place().stack.len() == executor.level);
        }
        match executor.come_back_to(&keys) {
            Err(e) => return Err(e),
            Ok(_) => {},
        }
        proof {
            executor.lemma_level();
            executor.lemma_stepped_back();
        }
        executor.level = keys.len() - 1;
        Ok(executor)
    }
}

} // verus!
