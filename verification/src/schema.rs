//! The schema: predicates by position, their key and value types, and the two tiers
//! of interned names a query is written in.
use std::collections::BTreeMap;
use std::sync::Arc;

use lasso::{Key, Rodeo, RodeoReader, Spur};
use vstd::prelude::*;

use crate::boxed::share;

verus! {

broadcast use vstd::std_specs::btree::group_btree_axioms;

// ---- interned names ---------------------------------------------------------

/// [`lasso::Spur`], the default key of the two interners below.
#[verifier::external_type_specification]
#[verifier::external_body]
pub struct ExSpur(Spur);

/// [`lasso::Rodeo`], the growing string interner. Opaque: what it holds is
/// [`rodeo_names`].
#[verifier::external_type_specification]
#[verifier::external_body]
#[verifier::reject_recursive_types(K)]
#[verifier::reject_recursive_types(S)]
pub struct ExRodeo<K, S>(Rodeo<K, S>);

/// [`lasso::RodeoReader`], the frozen interner. Opaque: what it holds is
/// [`reader_names`].
#[verifier::external_type_specification]
#[verifier::external_body]
#[verifier::reject_recursive_types(K)]
#[verifier::reject_recursive_types(S)]
pub struct ExRodeoReader<K, S>(RodeoReader<K, S>);

/// The strings a [`Rodeo`] holds, in the order they were first interned. The key of
/// a string is its position here.
pub uninterp spec fn rodeo_names(rodeo: Rodeo) -> Seq<Seq<char>>;

/// The strings a [`RodeoReader`] holds, in the order they were first interned.
pub uninterp spec fn reader_names(reader: RodeoReader) -> Seq<Seq<char>>;

/// How many names one interner can hold: the keys are `0..MAX_NAMES`.
pub const MAX_NAMES: usize = 0xffff_ffff;

/// The position of `s` in `names`, if it is there: the least one.
pub open spec fn position_of(names: Seq<Seq<char>>, s: Seq<char>) -> Option<nat>
    decreases names.len(),
{
    if names.len() == 0 {
        None
    } else if position_of(names.drop_last(), s) is Some {
        position_of(names.drop_last(), s)
    } else if names.last() == s {
        Some((names.len() - 1) as nat)
    } else {
        None
    }
}

/// `Rodeo::new`: an interner holding nothing.
#[verifier::external_body]
fn rodeo_new() -> (rodeo: Rodeo)
    ensures
        rodeo_names(rodeo) == Seq::<Seq<char>>::empty(),
{
    Rodeo::new()
}

/// `Rodeo::len`: how many distinct strings are interned.
#[verifier::external_body]
fn rodeo_len(rodeo: &Rodeo) -> (len: usize)
    ensures
        len == rodeo_names(*rodeo).len(),
{
    rodeo.len()
}

/// `Rodeo::get`: the key of a string already interned, `None` for one that is not.
/// Keys are positions in the order of interning.
#[verifier::external_body]
fn rodeo_get(rodeo: &Rodeo, s: &str) -> (key: Option<usize>)
    ensures
        match key {
            Some(k) => position_of(rodeo_names(*rodeo), s@) == Some(k as nat),
            None => position_of(rodeo_names(*rodeo), s@) is None,
        },
{
    rodeo.get(s).map(|key| key.into_usize())
}

/// `Rodeo::get_or_intern`: the key of `s`, which is its position if it was interned
/// before, and otherwise the next free one, with `s` appended. It panics when the key
/// space is exhausted, which the precondition leaves out.
#[verifier::external_body]
fn rodeo_get_or_intern(rodeo: &mut Rodeo, s: &str) -> (key: usize)
    requires
        position_of(rodeo_names(*old(rodeo)), s@) is Some || rodeo_names(*old(rodeo)).len()
            < MAX_NAMES,
    ensures
        match position_of(rodeo_names(*old(rodeo)), s@) {
            Some(k) => key == k && rodeo_names(*final(rodeo)) == rodeo_names(*old(rodeo)),
            None => key == rodeo_names(*old(rodeo)).len() && rodeo_names(*final(rodeo))
                == rodeo_names(*old(rodeo)).push(s@),
        },
{
    rodeo.get_or_intern(s).into_usize()
}

/// `Rodeo::try_resolve`: the string at a key, `None` for a key past the last one.
#[verifier::external_body]
fn rodeo_resolve(rodeo: &Rodeo, key: usize) -> (s: Option<&str>)
    ensures
        match s {
            Some(text) => key < rodeo_names(*rodeo).len() && text@ == rodeo_names(*rodeo)[key as int],
            None => key >= rodeo_names(*rodeo).len(),
        },
{
    Spur::try_from_usize(key).and_then(|spur| rodeo.try_resolve(&spur))
}

/// `Rodeo::into_reader`: the same strings under the same keys, frozen.
#[verifier::external_body]
fn rodeo_into_reader(rodeo: Rodeo) -> (reader: RodeoReader)
    ensures
        reader_names(reader) == rodeo_names(rodeo),
{
    rodeo.into_reader()
}

/// `RodeoReader::get`: the key of an interned string, `None` for one that is not.
#[verifier::external_body]
fn reader_get(reader: &RodeoReader, s: &str) -> (key: Option<usize>)
    ensures
        match key {
            Some(k) => position_of(reader_names(*reader), s@) == Some(k as nat),
            None => position_of(reader_names(*reader), s@) is None,
        },
{
    reader.get(s).map(|key| key.into_usize())
}

/// `RodeoReader::try_resolve`: the string at a key, `None` for a key past the last one.
#[verifier::external_body]
fn reader_resolve(reader: &RodeoReader, key: usize) -> (s: Option<&str>)
    ensures
        match s {
            Some(text) => key < reader_names(*reader).len() && text@ == reader_names(
                *reader,
            )[key as int],
            None => key >= reader_names(*reader).len(),
        },
{
    Spur::try_from_usize(key).and_then(|spur| reader.try_resolve(&spur))
}

/// The first `k` of some names, each once, in the order they first come.
pub open spec fn distinct(names: Seq<&str>, k: nat) -> Seq<Seq<char>>
    decreases k,
{
    if k == 0 {
        Seq::empty()
    } else {
        let before = distinct(names, (k - 1) as nat);
        if position_of(before, names[k - 1]@) is Some {
            before
        } else {
            before.push(names[k - 1]@)
        }
    }
}

proof fn lemma_distinct_len(names: Seq<&str>, k: nat)
    ensures
        distinct(names, k).len() <= k,
    decreases k,
{
    if k > 0 {
        lemma_distinct_len(names, (k - 1) as nat);
    }
}

impl SchemaInterner {
    /// A schema's names: each of `names` once.
    pub fn of(names: &[&str]) -> (interner: Self)
        requires
            names@.len() <= MAX_NAMES,
        ensures
            interner.names() == distinct(names@, names@.len()),
    {
        let mut rodeo: Rodeo = rodeo_new();
        let mut i: usize = 0;
        while i < names.len()
            invariant
                i <= names@.len(),
                names@.len() <= MAX_NAMES,
                rodeo_names(rodeo) == distinct(names@, i as nat),
            decreases names@.len() - i,
        {
            proof {
                lemma_distinct_len(names@, i as nat);
            }
            rodeo_get_or_intern(&mut rodeo, names[i]);
            i += 1;
        }
        Self::new(rodeo_into_reader(rodeo))
    }
}

// ---- predicates -------------------------------------------------------------

/// A predicate's position in the schema, which **is** its id.
#[derive(Debug, Clone, Copy, PartialEq, Eq, Structural)]
pub struct PredicateId(pub u32);

/// The width of the predicate prefix every stored key row begins with.
pub const PREDICATE_ID_SIZE: usize = 4;

/// The key of an interned name: its position among the names of its tier.
#[derive(Debug, Clone, Copy, PartialEq, Eq, Hash, Structural)]
pub struct NameKey(pub usize);

/// A name, in the tier that interned it: the schema's, or the query's own.
#[derive(Debug, Clone, Copy, PartialEq, Eq, Hash, Structural)]
pub enum Symbol {
    Schema(NameKey),
    Local(NameKey),
}

/// A declared type. A record's fields stand in encoding order.
#[derive(Debug)]
pub enum PredicateTy {
    Int,
    Str,
    Fact(PredicateId),
    Record(Arc<Vec<(NameKey, PredicateTy)>>),
}

impl Clone for PredicateTy {
    fn clone(&self) -> (ty: Self)
        ensures
            ty == *self,
    {
        match self {
            PredicateTy::Int => PredicateTy::Int,
            PredicateTy::Str => PredicateTy::Str,
            PredicateTy::Fact(predicate) => PredicateTy::Fact(*predicate),
            PredicateTy::Record(fields) => PredicateTy::Record(share(fields)),
        }
    }
}

/// One predicate: its name, the type of its key, and of its value if it has one.
#[derive(Debug)]
pub struct Predicate {
    pub name: NameKey,
    pub key: PredicateTy,
    pub value: Option<PredicateTy>,
}

/// The position of the field called `name`, if the record type has one: the first.
pub open spec fn field_position(fields: Seq<(NameKey, PredicateTy)>, name: NameKey) -> Option<nat>
    decreases fields.len(),
{
    if fields.len() == 0 {
        None
    } else if field_position(fields.drop_last(), name) is Some {
        field_position(fields.drop_last(), name)
    } else if fields.last().0 == name {
        Some((fields.len() - 1) as nat)
    } else {
        None
    }
}

/// A declared type, with the names its fields are written in.
pub struct PredicateTyRef<'a> {
    pub interner: &'a SchemaInterner,
    pub ty: &'a PredicateTy,
}

impl<'a> PredicateTyRef<'a> {
    /// The names the type's fields resolve against.
    pub open spec fn names(self) -> Seq<Seq<char>> {
        self.interner.names()
    }

    /// The field called `name` of a record type, and its position. `None` when the
    /// type is no record, or has no field of that name.
    pub fn find_field(&self, name: &str) -> (found: Option<(usize, PredicateTyRef<'a>)>)
        ensures
            match (*self.ty, position_of(self.names(), name@)) {
                (PredicateTy::Record(fields), Some(key)) => match field_position(
                    fields@,
                    NameKey(key as usize),
                ) {
                    Some(at) => found matches Some((i, field)) && i == at && *field.ty
                        == fields@[at as int].1 && field.names() == self.names(),
                    None => found is None,
                },
                _ => found is None,
            },
    {
        let PredicateTy::Record(fields) = self.ty else {
            return None;
        };
        let Some(key) = self.interner.get_key(name) else {
            return None;
        };
        match find_name(fields, key) {
            Some(at) => Some(
                (at, PredicateTyRef { interner: self.interner, ty: &fields[at].1 }),
            ),
            None => None,
        }
    }
}

/// The position of the field called `name`: the first one.
pub fn find_name(fields: &Vec<(NameKey, PredicateTy)>, name: NameKey) -> (at: Option<usize>)
    ensures
        match at {
            Some(i) => field_position(fields@, name) == Some(i as nat) && i < fields@.len(),
            None => field_position(fields@, name) is None,
        },
{
    let mut i: usize = 0;
    while i < fields.len()
        invariant
            i <= fields@.len(),
            field_position(fields@.take(i as int), name) is None,
        decreases fields@.len() - i,
    {
        proof {
            assert(fields@.take(i + 1).drop_last() =~= fields@.take(i as int));
        }
        if fields[i].0 == name {
            proof {
                lemma_field_position_take(fields@, name, i + 1);
            }
            return Some(i);
        }
        i += 1;
    }
    proof {
        assert(fields@.take(i as int) =~= fields@);
    }
    None
}

proof fn lemma_field_position_take(fields: Seq<(NameKey, PredicateTy)>, name: NameKey, n: int)
    requires
        0 <= n <= fields.len(),
        field_position(fields.take(n), name) is Some,
    ensures
        field_position(fields, name) == field_position(fields.take(n), name),
    decreases fields.len(),
{
    if n < fields.len() {
        assert(fields.drop_last().take(n) =~= fields.take(n));
        lemma_field_position_take(fields.drop_last(), name, n);
    } else {
        assert(fields.take(n) =~= fields);
    }
}

/// What [`field_position`] finds: the first field of that name.
pub proof fn lemma_field_position(fields: Seq<(NameKey, PredicateTy)>, name: NameKey)
    ensures
        match field_position(fields, name) {
            Some(at) => {
                &&& at < fields.len()
                &&& fields[at as int].0 == name
                &&& forall|i: int| 0 <= i < at ==> fields[i].0 != name
            },
            None => forall|i: int| 0 <= i < fields.len() ==> fields[i].0 != name,
        },
    decreases fields.len(),
{
    if fields.len() > 0 {
        lemma_field_position(fields.drop_last(), name);
        assert forall|i: int| 0 <= i < fields.len() - 1 implies fields[i] == fields.drop_last()[i] by {}
    }
}

/// What [`position_of`] finds: the first place holding the string.
pub proof fn lemma_position_of(names: Seq<Seq<char>>, s: Seq<char>)
    ensures
        match position_of(names, s) {
            Some(at) => {
                &&& at < names.len()
                &&& names[at as int] == s
                &&& forall|i: int| 0 <= i < at ==> names[i] != s
            },
            None => forall|i: int| 0 <= i < names.len() ==> names[i] != s,
        },
    decreases names.len(),
{
    if names.len() > 0 {
        lemma_position_of(names.drop_last(), s);
        assert forall|i: int| 0 <= i < names.len() - 1 implies names[i] == names.drop_last()[i] by {}
    }
}

/// A predicate of a schema, with the names it is written in.
pub struct PredicateRef<'a> {
    interner: &'a SchemaInterner,
    inner: &'a Predicate,
}

impl<'a> PredicateRef<'a> {
    /// The names the predicate resolves against.
    pub closed spec fn names(self) -> Seq<Seq<char>> {
        self.interner.names()
    }

    /// The predicate itself.
    pub closed spec fn inner(self) -> Predicate {
        *self.inner
    }

    /// This predicate's name, or `None` if the schema's own interner cannot resolve
    /// it — a broken schema, not a predicate without a name.
    pub fn name(&self) -> (name: Option<&'a str>)
        ensures
            match name {
                Some(text) => self.inner().name.0 < self.names().len() && text@
                    == self.names()[self.inner().name.0 as int],
                None => self.inner().name.0 >= self.names().len(),
            },
    {
        self.interner.resolve(self.inner.name)
    }

    /// The type of the key.
    pub fn key(&self) -> (ty: PredicateTyRef<'a>)
        ensures
            *ty.ty == self.inner().key,
            ty.names() == self.names(),
    {
        PredicateTyRef { interner: self.interner, ty: &self.inner.key }
    }

    /// The type of the value, if the predicate declares one.
    pub fn value(&self) -> (ty: Option<PredicateTyRef<'a>>)
        ensures
            match (self.inner().value, ty) {
                (Some(declared), Some(found)) => *found.ty == declared && found.names()
                    == self.names(),
                (None, None) => true,
                _ => false,
            },
    {
        match &self.inner.value {
            Some(ty) => Some(PredicateTyRef { interner: self.interner, ty }),
            None => None,
        }
    }

    /// The declaration.
    pub fn predicate(&self) -> (predicate: &'a Predicate)
        ensures
            *predicate == self.inner(),
    {
        self.inner
    }
}

// ---- interners --------------------------------------------------------------

/// The schema's names, frozen and shared.
pub struct SchemaInterner(Arc<RodeoReader>);

impl Clone for SchemaInterner {
    fn clone(&self) -> (copy: Self)
        ensures
            copy == *self,
    {
        SchemaInterner(share(&self.0))
    }
}

impl SchemaInterner {
    /// The names held, by key.
    pub closed spec fn names(self) -> Seq<Seq<char>> {
        reader_names(*self.0)
    }

    pub fn new(reader: RodeoReader) -> (interner: Self)
        ensures
            interner.names() == reader_names(reader),
    {
        SchemaInterner(Arc::new(reader))
    }

    /// The symbol of a name the schema declares.
    pub fn get(&self, s: &str) -> (symbol: Option<Symbol>)
        ensures
            symbol == schema_symbol(self.names(), s@),
    {
        match self.get_key(s) {
            Some(key) => Some(Symbol::Schema(key)),
            None => None,
        }
    }

    /// The key of a name the schema declares.
    pub fn get_key(&self, s: &str) -> (key: Option<NameKey>)
        ensures
            match key {
                Some(k) => position_of(self.names(), s@) == Some(k.0 as nat),
                None => position_of(self.names(), s@) is None,
            },
    {
        match reader_get(&self.0, s) {
            Some(key) => Some(NameKey(key)),
            None => None,
        }
    }

    /// The text of a name interned in the schema.
    pub fn resolve(&self, key: NameKey) -> (text: Option<&str>)
        ensures
            match text {
                Some(s) => key.0 < self.names().len() && s@ == self.names()[key.0 as int],
                None => key.0 >= self.names().len(),
            },
    {
        reader_resolve(&self.0, key.0)
    }
}

/// The symbol `s` has in the schema's tier.
pub open spec fn schema_symbol(names: Seq<Seq<char>>, s: Seq<char>) -> Option<Symbol> {
    match position_of(names, s) {
        Some(key) => Some(Symbol::Schema(NameKey(key as usize))),
        None => None,
    }
}

/// The names a query is written in: the schema's, and its own in the order it brought
/// them. A name's key is its position.
pub struct Names {
    pub schema: Seq<Seq<char>>,
    pub local: Seq<Seq<char>>,
}

impl Names {
    /// The text behind a symbol.
    pub open spec fn text(self, symbol: Symbol) -> Option<Seq<char>> {
        match symbol {
            Symbol::Schema(key) => if key.0 < self.schema.len() {
                Some(self.schema[key.0 as int])
            } else {
                None
            },
            Symbol::Local(key) => if key.0 < self.local.len() {
                Some(self.local[key.0 as int])
            } else {
                None
            },
        }
    }

    /// The text behind a symbol, or a question mark.
    pub open spec fn shown(self, symbol: Symbol) -> Seq<char> {
        match self.text(symbol) {
            Some(text) => text,
            None => "?"@,
        }
    }

    /// The symbol a name has: the schema's tier first, then the query's own.
    pub open spec fn symbol(self, s: Seq<char>) -> Option<Symbol> {
        match schema_symbol(self.schema, s) {
            Some(symbol) => Some(symbol),
            None => match position_of(self.local, s) {
                Some(key) => Some(Symbol::Local(NameKey(key as usize))),
                None => None,
            },
        }
    }

    /// What interning `s` returns: its symbol, or the next free one of the query's
    /// tier.
    pub open spec fn interned(self, s: Seq<char>) -> Symbol {
        match self.symbol(s) {
            Some(symbol) => symbol,
            None => Symbol::Local(NameKey(self.local.len() as usize)),
        }
    }

    /// The names after interning `s`.
    pub open spec fn with(self, s: Seq<char>) -> Names {
        if self.symbol(s) is Some {
            self
        } else {
            Names { schema: self.schema, local: self.local.push(s) }
        }
    }

    /// Whether the query's tier has room for `n` more names.
    pub open spec fn has_room(self, n: nat) -> bool {
        self.local.len() + n <= MAX_NAMES
    }
}

/// A query's names: the schema's, and the ones the query brings itself.
pub struct LocalInterner {
    schema: SchemaInterner,
    local: Rodeo,
}

impl View for LocalInterner {
    type V = Names;

    closed spec fn view(&self) -> Names {
        Names { schema: self.schema.names(), local: rodeo_names(self.local) }
    }
}

impl LocalInterner {
    pub fn new(schema: SchemaInterner) -> (interner: Self)
        ensures
            interner@ == (Names { schema: schema.names(), local: Seq::empty() }),
    {
        LocalInterner { schema, local: rodeo_new() }
    }

    pub fn schema(&self) -> (schema: &SchemaInterner)
        ensures
            schema.names() == self@.schema,
    {
        &self.schema
    }

    /// How many names the query has brought itself.
    pub fn local_len(&self) -> (len: usize)
        ensures
            len == self@.local.len(),
    {
        rodeo_len(&self.local)
    }

    pub fn get(&self, s: &str) -> (symbol: Option<Symbol>)
        ensures
            symbol == self@.symbol(s@),
    {
        if let Some(symbol) = self.schema.get(s) {
            return Some(symbol);
        }
        match rodeo_get(&self.local, s) {
            Some(key) => Some(Symbol::Local(NameKey(key))),
            None => None,
        }
    }

    /// The symbol of `s`, interning it in the query's tier if neither tier has it.
    pub fn get_or_intern(&mut self, s: &str) -> (symbol: Symbol)
        requires
            old(self)@.has_room(1),
        ensures
            symbol == old(self)@.interned(s@),
            final(self)@ == old(self)@.with(s@),
    {
        if let Some(symbol) = self.schema.get(s) {
            return symbol;
        }
        Symbol::Local(NameKey(rodeo_get_or_intern(&mut self.local, s)))
    }

    /// The text behind a symbol, from whichever tier interned it.
    pub fn try_resolve(&self, symbol: Symbol) -> (text: Option<&str>)
        ensures
            match text {
                Some(s) => self@.text(symbol) == Some(s@),
                None => self@.text(symbol) is None,
            },
    {
        match symbol {
            Symbol::Schema(key) => self.schema.resolve(key),
            Symbol::Local(key) => rodeo_resolve(&self.local, key.0),
        }
    }

    /// The text behind a symbol, or a question mark.
    pub fn shown(&self, symbol: Symbol) -> (text: &str)
        ensures
            text@ == self@.shown(symbol),
    {
        match self.try_resolve(symbol) {
            Some(text) => text,
            None => "?",
        }
    }
}

/// Interning a name and resolving its symbol gives the name back.
pub proof fn law_interned_names_resolve(names: Names, s: Seq<char>)
    requires
        names.has_room(1),
        names.schema.len() <= MAX_NAMES,
    ensures
        names.with(s).text(names.interned(s)) == Some(s),
        names.with(s).symbol(s) == Some(names.interned(s)),
{
    lemma_position_of(names.schema, s);
    lemma_position_of(names.local, s);
    lemma_position_of(names.with(s).local, s);
}

/// Interning a name moves no other: a symbol that resolved keeps its text, and a name
/// that had a symbol keeps it.
pub proof fn law_symbols_are_stable(names: Names, s: Seq<char>, symbol: Symbol, other: Seq<char>)
    requires
        names.has_room(1),
    ensures
        names.text(symbol) is Some ==> names.with(s).text(symbol) == names.text(symbol),
        names.symbol(other) is Some ==> names.with(s).symbol(other) == names.symbol(other),
{
    assert(names.local.push(s).drop_last() =~= names.local);
}

/// A name the schema declares is the schema's symbol, whatever the query brings.
pub proof fn law_the_schema_comes_first(names: Names, s: Seq<char>)
    requires
        position_of(names.schema, s) is Some,
    ensures
        names.interned(s) == schema_symbol(names.schema, s)->0,
        names.with(s) == names,
{
}

// ---- the schema -------------------------------------------------------------

/// The predicate called by `name`, if one is: the first declared.
pub open spec fn predicate_position(predicates: Seq<Predicate>, name: NameKey) -> Option<nat>
    decreases predicates.len(),
{
    if predicates.len() == 0 {
        None
    } else if predicate_position(predicates.drop_last(), name) is Some {
        predicate_position(predicates.drop_last(), name)
    } else if predicates.last().name == name {
        Some((predicates.len() - 1) as nat)
    } else {
        None
    }
}

/// What [`predicate_position`] finds: the first predicate declared with that name.
pub proof fn lemma_predicate_position(predicates: Seq<Predicate>, name: NameKey)
    ensures
        match predicate_position(predicates, name) {
            Some(at) => {
                &&& at < predicates.len()
                &&& predicates[at as int].name == name
                &&& forall|i: int| 0 <= i < at ==> predicates[i].name != name
            },
            None => forall|i: int| 0 <= i < predicates.len() ==> predicates[i].name != name,
        },
    decreases predicates.len(),
{
    if predicates.len() > 0 {
        lemma_predicate_position(predicates.drop_last(), name);
        assert forall|i: int| 0 <= i < predicates.len() - 1 implies predicates[i]
            == predicates.drop_last()[i] by {}
    }
}

/// The predicates of a database, by position, and their names.
pub struct Schema {
    interner: SchemaInterner,
    predicates: Arc<Vec<Predicate>>,
    by_name: Arc<BTreeMap<usize, PredicateId>>,
}

impl Clone for Schema {
    fn clone(&self) -> (copy: Self)
        ensures
            copy == *self,
    {
        Schema {
            interner: self.interner.clone(),
            predicates: share(&self.predicates),
            by_name: share(&self.by_name),
        }
    }
}

impl Schema {
    /// The names predicates and fields are written in.
    pub closed spec fn names(self) -> Seq<Seq<char>> {
        self.interner.names()
    }

    /// The declarations: a predicate's position is its id.
    pub closed spec fn predicates(self) -> Seq<Predicate> {
        self.predicates@
    }

    /// The name index agrees with the declarations.
    pub closed spec fn wf(self) -> bool {
        &&& self.predicates@.len() <= u32::MAX
        &&& forall|name: usize| #[trigger]
            self.by_name@.contains_key(name) <==> predicate_position(
                self.predicates@,
                NameKey(name),
            ) is Some
        &&& forall|name: usize| #[trigger]
            self.by_name@.contains_key(name) ==> predicate_position(self.predicates@, NameKey(name))
                == Some(self.by_name@[name].0 as nat)
    }

    /// The declaration of predicate `id`, if the schema has one.
    pub open spec fn predicate(self, id: PredicateId) -> Option<Predicate> {
        if id.0 < self.predicates().len() {
            Some(self.predicates()[id.0 as int])
        } else {
            None
        }
    }

    /// The predicate called `name`, if the schema declares one.
    pub open spec fn position(self, name: Seq<char>) -> Option<nat> {
        match position_of(self.names(), name) {
            Some(key) => predicate_position(self.predicates(), NameKey(key as usize)),
            None => None,
        }
    }

    /// A schema of `predicates`, whose names `reader` holds. Of two predicates that
    /// share a name, the first is the one found by it.
    pub fn new(reader: RodeoReader, predicates: Arc<Vec<Predicate>>) -> (schema: Self)
        requires
            predicates@.len() <= u32::MAX,
        ensures
            schema.wf(),
            schema.names() == reader_names(reader),
            schema.predicates() == predicates@,
    {
        let mut by_name: BTreeMap<usize, PredicateId> = BTreeMap::new();

        let mut i: usize = 0;
        while i < predicates.len()
            invariant
                i <= predicates@.len() <= u32::MAX,
                forall|name: usize| #[trigger]
                    by_name@.contains_key(name) <==> predicate_position(
                        predicates@.take(i as int),
                        NameKey(name),
                    ) is Some,
                forall|name: usize| #[trigger]
                    by_name@.contains_key(name) ==> predicate_position(
                        predicates@.take(i as int),
                        NameKey(name),
                    ) == Some(by_name@[name].0 as nat),
            decreases predicates@.len() - i,
        {
            proof {
                assert(predicates@.take(i + 1).drop_last() =~= predicates@.take(i as int));
            }
            let name: usize = predicates[i].name.0;
            if !by_name.contains_key(&name) {
                by_name.insert(name, PredicateId(i as u32));
            }
            i += 1;
        }
        proof {
            assert(predicates@.take(i as int) =~= predicates@);
        }

        Schema { interner: SchemaInterner::new(reader), predicates, by_name: Arc::new(by_name) }
    }

    pub fn interner(&self) -> (interner: &SchemaInterner)
        ensures
            interner.names() == self.names(),
    {
        &self.interner
    }

    /// The predicate at a position.
    pub fn get(&self, id: PredicateId) -> (found: Option<PredicateRef<'_>>)
        ensures
            match self.predicate(id) {
                Some(predicate) => found is Some && found->0.inner() == predicate
                    && found->0.names() == self.names(),
                None => found is None,
            },
    {
        if (id.0 as usize) < self.predicates.len() {
            Some(
                PredicateRef { interner: &self.interner, inner: &self.predicates[id.0 as usize] },
            )
        } else {
            None
        }
    }

    /// How many predicates the schema declares: one past the largest valid id.
    pub fn len(&self) -> (len: usize)
        ensures
            len == self.predicates().len(),
    {
        self.predicates.len()
    }

    pub fn is_empty(&self) -> (empty: bool)
        ensures
            empty == (self.predicates().len() == 0),
    {
        self.predicates.len() == 0
    }

    /// The predicate called `name`, and its id.
    pub fn find_position(&self, name: &str) -> (found: Option<(PredicateId, PredicateRef<'_>)>)
        requires
            self.wf(),
        ensures
            match self.position(name@) {
                Some(at) => found matches Some((id, predicate)) && id.0 == at && predicate.inner()
                    == self.predicates()[at as int] && predicate.names() == self.names(),
                None => found is None,
            },
    {
        let Some(key) = self.interner.get_key(name) else {
            return None;
        };
        proof {
            lemma_predicate_position(self.predicates@, key);
        }
        let id: PredicateId = match self.by_name.get(&key.0) {
            Some(id) => *id,
            None => {
                return None;
            },
        };
        match self.get(id) {
            Some(found) => Some((id, found)),
            None => None,
        }
    }
}

} // verus!
