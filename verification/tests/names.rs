//! Schemas and the two tiers of names.

use std::sync::Arc;

use focus::fixtures::interner_with;
use focus::schema::{
    LocalInterner, NameKey, Predicate, PredicateId, PredicateTy, Schema, SchemaInterner, Symbol,
};
use lasso::{Key, Rodeo};

fn schema_of(names: &[&str]) -> Schema {
    let mut rodeo = Rodeo::default();
    let predicates: Vec<Predicate> = names
        .iter()
        .map(|name| Predicate {
            name: NameKey(rodeo.get_or_intern(name).into_usize()),
            key: PredicateTy::Int,
            value: None,
        })
        .collect();

    Schema::new(rodeo.into_reader(), Arc::new(predicates))
}

#[test]
fn the_two_tiers_resolve_their_own_names() {
    let mut rodeo = Rodeo::default();
    rodeo.get_or_intern("declared");
    let schema = SchemaInterner::new(rodeo.into_reader());

    let mut interner = LocalInterner::new(schema.clone());

    // A name the schema declares resolves through the schema tier...
    let declared = interner.get_or_intern("declared");
    assert!(matches!(declared, Symbol::Schema(_)));
    assert_eq!(interner.try_resolve(declared), Some("declared"));

    // ...and one it does not resolves through the local tier.
    let local = interner.get_or_intern("query-only");
    assert!(matches!(local, Symbol::Local(_)));
    assert_eq!(interner.try_resolve(local), Some("query-only"));

    let Symbol::Schema(spur) = declared else {
        unreachable!("checked above")
    };
    assert_eq!(schema.resolve(spur), Some("declared"));
}

/// A predicate's position is its id.
#[test]
fn find_position_returns_the_declared_position() {
    let schema = schema_of(&["a.One", "b.Two", "c.Three"]);

    for (expected, name) in ["a.One", "b.Two", "c.Three"].iter().enumerate() {
        let (id, found) = schema.find_position(name).expect(name);
        assert_eq!(id, PredicateId(expected as u32));
        assert_eq!(found.name(), Some(*name));
    }

    assert!(schema.find_position("nosuch.Pred").is_none());
}

/// Two predicates sharing a name resolve to the first.
#[test]
fn find_position_prefers_the_first_of_a_duplicated_name() {
    let schema = schema_of(&["a.One", "dup.Pred", "b.Two", "dup.Pred"]);

    let (id, _) = schema.find_position("dup.Pred").expect("dup.Pred");
    assert_eq!(id, PredicateId(1));
}

#[test]
fn a_schema_counts_its_predicates() {
    let schema = schema_of(&["a.One", "b.Two"]);

    assert_eq!(schema.len(), 2);
    assert!(!schema.is_empty());
    assert!(schema_of(&[]).is_empty());
    assert!(schema.get(PredicateId(2)).is_none());
    let one = schema.get(PredicateId(0)).expect("a predicate");
    assert!(matches!(one.key().ty, PredicateTy::Int));
    assert!(one.value().is_none());
    assert!(one.predicate().value.is_none());
}

#[test]
fn a_record_type_finds_its_fields() {
    let mut rodeo = Rodeo::default();
    let mut key = |name: &str| NameKey(rodeo.get_or_intern(name).into_usize());
    let ty = PredicateTy::Record(Arc::new(vec![
        (key("id"), PredicateTy::Int),
        (key("name"), PredicateTy::Str),
    ]));
    let predicate = Predicate {
        name: key("t.Pair"),
        key: ty,
        value: Some(PredicateTy::Str),
    };
    let schema = Schema::new(rodeo.into_reader(), Arc::new(vec![predicate]));
    let (_, found) = schema.find_position("t.Pair").expect("t.Pair");

    let (at, field) = found.key().find_field("name").expect("a field");
    assert_eq!(at, 1);
    assert!(matches!(field.ty, PredicateTy::Str));
    assert!(found.key().find_field("t.Pair").is_none(), "a name, and no field");
    assert!(found.key().find_field("nosuch").is_none());
    let value = found.value().expect("a value side");
    assert!(value.find_field("id").is_none(), "a string has no fields");
}

/// A symbol keeps its meaning while other names come in, and a name its symbol.
#[test]
fn symbols_are_stable() {
    let mut interner = interner_with(&["b", "a", "b"]);

    let a = interner.get("a").expect("a name of the schema");
    assert_eq!(a, Symbol::Schema(NameKey(1)));
    let x = interner.get_or_intern("X");
    assert_eq!(x, Symbol::Local(NameKey(0)));
    assert_eq!(interner.get("Y"), None);
    let y = interner.get_or_intern("Y");
    assert_eq!(interner.get_or_intern("X"), x);
    assert_ne!(x, y);
    assert_eq!(interner.local_len(), 2);
    assert_eq!(interner.try_resolve(x), Some("X"));
    assert_eq!(interner.try_resolve(Symbol::Local(NameKey(2))), None);
    assert_eq!(interner.try_resolve(Symbol::Schema(NameKey(2))), None);
    assert_eq!(interner.shown(y), "Y");
    assert_eq!(interner.shown(Symbol::Local(NameKey(9))), "?");
    assert_eq!(interner.schema().get_key("b"), Some(NameKey(0)));
    assert_eq!(interner.schema().resolve(NameKey(1)), Some("a"));
    assert_eq!(interner.schema().get("nosuch"), None);
}
