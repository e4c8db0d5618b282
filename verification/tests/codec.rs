//! Encodings, literals, ids, and what errors say.

use focus::bytes::{append_bytes, less, same_bytes, starts_with, strinc, sub_bytes};
use focus::diag::{Code, Diagnostics};
use focus::error::{
    ApertureError, BadUtf8, FactError, FactIdError, FormatError, FormatVersion, PlanFingerprint,
    StoreCodecError, StoreError,
};
use focus::fixtures::{i64_field, interner_with, str_field};
use focus::iter::Address;
use focus::lexer::{parse_nat, signed_literal, unescape_str, LiteralError, Token};
use focus::parse::nesting_overflow;
use focus::parser::{create_diagnostic, Lexed};
use focus::cst::Span;
use focus::plan::{
    FactId, FieldPath, MAX_FACT_SEQUENCE, MAX_TAGGABLE_PREDICATE,
};
use focus::print::{escape, push_tagged};
use focus::schema::{NameKey, PredicateId, PredicateTy, Symbol};
use focus::syntax::{narrow_offset, NodeSpan};
use focus::text::{around, comes_before, push_decimal, push_hexadecimal, push_signed, same_text};
use focus::tuple::{
    decode_typed, field_range, nested_range, put_fact_id, skip, Value, ESCAPE, MARK_RECORD,
    MARK_STR, MARK_TERM,
};

// ---- bytes ---------------------------------------------------------------------

/// The keys a prefix begins are exactly those from it up to its successor.
#[test]
fn a_prefix_is_a_range() {
    assert_eq!(strinc(&[1, 2]), Some(vec![1, 3]));
    assert_eq!(strinc(&[1, 0xff, 0xff]), Some(vec![2]));
    assert_eq!(strinc(&[0xff]), None);
    assert_eq!(strinc(&[]), None);

    let prefix = [1, 0xff];
    let end = strinc(&prefix).expect("an end");
    for key in [&[1, 0xfe][..], &[1, 0xff], &[1, 0xff, 0xff, 9], &[2], &[2, 0]] {
        let inside = !less(key, &prefix) && less(key, &end);
        assert_eq!(inside, starts_with(key, &prefix), "{key:?}");
    }
}

#[test]
fn bytes_compare_in_order() {
    assert!(less(&[1], &[1, 0]));
    assert!(less(&[1, 0xff], &[2]));
    assert!(!less(&[2], &[2]));
    assert!(same_bytes(&[1, 2], &[1, 2]));
    assert!(!same_bytes(&[1, 2], &[1, 2, 3]));
    let mut out = vec![1];
    append_bytes(&mut out, &[2, 3]);
    assert_eq!(out, vec![1, 2, 3]);
    assert_eq!(sub_bytes(&out, 1, 2), vec![2]);
}

// ---- values --------------------------------------------------------------------

#[test]
fn integers_are_encoded_in_their_order() {
    assert_eq!(i64_field(1), vec![0x15, 0x80, 0, 0, 0, 0, 0, 0, 1]);
    assert_eq!(i64_field(i64::MIN), vec![0x15, 0, 0, 0, 0, 0, 0, 0, 0]);
    let sorted = [i64::MIN, -42, -1, 0, 1, 1_000, i64::MAX];
    for pair in sorted.windows(2) {
        assert!(less(&i64_field(pair[0]), &i64_field(pair[1])), "{pair:?}");
    }
}

#[test]
fn strings_are_encoded_with_their_lowest_bytes_escaped() {
    assert_eq!(str_field("ab"), vec![MARK_STR, b'a', b'b', MARK_TERM]);
    assert_eq!(
        str_field("a\0b"),
        vec![MARK_STR, b'a', ESCAPE, 1, b'b', MARK_TERM]
    );
    assert_eq!(
        str_field("\u{1}"),
        vec![MARK_STR, ESCAPE, 2, MARK_TERM]
    );
}

/// No value's bytes begin another's, so a seek for one string does not find a longer one.
#[test]
fn no_encoding_begins_another() {
    let texts = ["", "a", "a\0", "a\0b", "a\u{1}", "ab"];
    for (i, s) in texts.iter().enumerate() {
        for (j, t) in texts.iter().enumerate() {
            assert_eq!(starts_with(&str_field(s), &str_field(t)), i == j, "{s:?} {t:?}");
        }
    }
    let sorted: Vec<Vec<u8>> = ["", "\0", "\0a", "\u{1}", "\u{2}", "a", "a\0"]
        .iter()
        .map(|s| str_field(s))
        .collect();
    for pair in sorted.windows(2) {
        assert!(less(&pair[0], &pair[1]), "{pair:?}");
    }
}

/// A string begins with another exactly where its encoding begins with the other's,
/// short of the terminator.
#[test]
fn a_string_prefix_is_a_prefix_of_the_encoding() {
    let mut prefix = str_field("an");
    prefix.pop();
    for (s, yes) in [("an", true), ("anna", true), ("ab", false), ("a", false)] {
        assert_eq!(starts_with(&str_field(s), &prefix), yes, "{s:?}");
        assert_eq!(s.starts_with("an"), yes);
    }
}

fn record_of(fields: &[Vec<u8>]) -> Vec<u8> {
    [vec![MARK_RECORD], fields.concat(), vec![MARK_TERM]].concat()
}

#[test]
fn decoding_gives_back_what_was_encoded() {
    let interner = interner_with(&["x", "y"]);
    let id = FactId::new(PredicateId(3), 8).expect("an id");
    let mut reference = vec![];
    put_fact_id(&mut reference, id);

    assert_eq!(
        decode_typed(&interner, &i64_field(-7), &PredicateTy::Int),
        Ok(Value::Int(-7))
    );
    assert_eq!(
        decode_typed(&interner, &str_field("a\0é"), &PredicateTy::Str),
        Ok(Value::Str("a\0é".to_owned()))
    );
    assert_eq!(
        decode_typed(&interner, &reference, &PredicateTy::Fact(PredicateId(3))),
        Ok(Value::FactRef(id))
    );
    let ty = PredicateTy::Record(std::sync::Arc::new(vec![
        (NameKey(0), PredicateTy::Int),
        (NameKey(1), PredicateTy::Str),
    ]));
    let value = decode_typed(&interner, &record_of(&[i64_field(2), str_field("z")]), &ty);
    let wanted = Value::Record(vec![
        ("x".to_owned(), Value::Int(2)),
        ("y".to_owned(), Value::Str("z".to_owned())),
    ]);
    assert_eq!(value.expect("a record").duplicate(), wanted);
}

#[test]
fn bytes_that_are_no_value_are_told_apart() {
    let interner = interner_with(&[]);
    let decode = |bytes: &[u8], ty: PredicateTy| decode_typed(&interner, bytes, &ty);
    let reference = |predicate: u32, sequence: u64| {
        let mut out = vec![];
        let id = FactId::from_raw(((predicate as u64) << 40) + sequence);
        put_fact_id(&mut out, id);
        out
    };

    assert_eq!(
        decode(&[], PredicateTy::Int),
        Err(StoreCodecError::UnexpectedEof)
    );
    assert_eq!(
        decode(&i64_field(1)[..4], PredicateTy::Int),
        Err(StoreCodecError::UnexpectedEof)
    );
    assert_eq!(
        decode(&str_field("a"), PredicateTy::Int),
        Err(StoreCodecError::UnexpectedMark(MARK_STR))
    );
    assert_eq!(
        decode(&[MARK_STR, 0xff, MARK_TERM], PredicateTy::Str),
        Err(StoreCodecError::BadString(BadUtf8 {
            valid_up_to: 0,
            error_len: Some(1)
        }))
    );
    assert_eq!(
        decode(&[MARK_STR, b'a', b'b', 0xe2, 0x82, MARK_TERM], PredicateTy::Str),
        Err(StoreCodecError::BadString(BadUtf8 {
            valid_up_to: 2,
            error_len: None
        }))
    );
    assert_eq!(
        decode(&[MARK_STR, 0x01, 0x07, MARK_TERM], PredicateTy::Str),
        Err(StoreCodecError::UnexpectedMark(0x07))
    );
    assert_eq!(
        decode(&reference(2, 1), PredicateTy::Fact(PredicateId(1))),
        Err(StoreCodecError::FactRefPredicate {
            expected: 1,
            found: 2
        })
    );
    assert_eq!(
        decode(&reference(1, 0), PredicateTy::Fact(PredicateId(1))),
        Err(StoreCodecError::ReservedFactId)
    );
    let unnamed = PredicateTy::Record(std::sync::Arc::new(vec![(NameKey(4), PredicateTy::Int)]));
    assert_eq!(
        decode(&record_of(&[i64_field(1)]), unnamed),
        Err(StoreCodecError::UnknownSymbol(Symbol::Schema(NameKey(4))))
    );
}

/// Values delimit themselves: a field is found by walking over the ones before it.
#[test]
fn fields_are_found_by_walking() {
    let inner = record_of(&[i64_field(5), str_field("in")]);
    let key = [i64_field(1), str_field("ab"), inner.clone()].concat();

    assert_eq!(skip(&key, 0), Ok(9));
    assert_eq!(skip(&key, 9), Ok(13));
    assert_eq!(field_range(&key, 1), Ok((9, 13)));
    assert_eq!(field_range(&key, 2), Ok((13, key.len())));
    assert_eq!(field_range(&key, 3), Err(StoreCodecError::UnexpectedEof));

    let (from, to) = nested_range(&key, 13, key.len(), &[1]).expect("a nested field");
    assert_eq!(&key[from..to], str_field("in").as_slice());
    assert!(matches!(
        nested_range(&key, 13, key.len(), &[2]),
        Err(ApertureError::NestedFieldOutOfRange { step: 2 })
    ));
    assert!(matches!(
        nested_range(&key, 0, 9, &[0]),
        Err(ApertureError::NotARecord { step: 0 })
    ));
}

#[test]
fn a_path_names_a_field_and_steps_into_it() {
    let path = FieldPath::nested(2, vec![0]);
    assert_eq!(path.text(), "2.0");
    assert_eq!(path.then(7).text(), "2.0.7");
    assert_eq!(path.field_idx(), 2);
    assert_eq!(path.steps(), [0]);
    assert!(!path.is_flat());
    assert!(FieldPath::field(1).is_flat());
    assert!(path.same(&FieldPath::field(2).then(0)));
    assert!(!path.same(&FieldPath::field(2)));
}

// ---- fact ids --------------------------------------------------------------------

#[test]
fn a_fact_id_is_its_predicate_and_sequence() {
    let id = FactId::new(PredicateId(3), 8).expect("an id");
    assert_eq!(id.raw(), (3 << 40) + 8);
    assert_eq!(id.predicate(), PredicateId(3));
    assert_eq!(id.sequence(), 8);
    assert_eq!(FactId::from_raw(id.raw()), id);
    assert_ne!(FactId::new(PredicateId(3), 9).expect("an id"), id);
    assert_ne!(FactId::new(PredicateId(4), 8).expect("an id"), id);

    assert!(FactId::new(PredicateId(MAX_TAGGABLE_PREDICATE), MAX_FACT_SEQUENCE).is_ok());
    assert!(matches!(
        FactId::new(PredicateId(MAX_TAGGABLE_PREDICATE + 1), 1),
        Err(StoreError::Id(FactIdError::PredicateIdTooWide {
            predicate: 0x100_0000,
            max: 0xff_ffff
        }))
    ));
    for sequence in [0, MAX_FACT_SEQUENCE + 1] {
        assert!(matches!(
            FactId::new(PredicateId(1), sequence),
            Err(StoreError::Id(FactIdError::FactIdSequence { .. }))
        ));
    }
}

// ---- literals ----------------------------------------------------------------------

#[test]
fn integer_literals_denote_numbers() {
    assert_eq!(parse_nat("0"), Ok(0));
    assert_eq!(parse_nat("1_000"), Ok(1000));
    assert_eq!(parse_nat("18446744073709551615"), Ok(u64::MAX));
    assert_eq!(
        parse_nat("18446744073709551616"),
        Err(LiteralError::IntRange)
    );
    for text in ["1__0", "1_", "_1"] {
        assert_eq!(parse_nat(text), Err(LiteralError::IntUnderscore), "{text}");
    }
    assert_eq!(parse_nat("007"), Err(LiteralError::IntLeadingZero));
    assert_eq!(parse_nat("1x"), Err(LiteralError::IntRange));

    assert_eq!(signed_literal(42, false), Ok(42));
    assert_eq!(signed_literal(42, true), Ok(-42));
    assert_eq!(signed_literal(1 << 63, true), Ok(i64::MIN));
    assert_eq!(signed_literal(1 << 63, false), Err(LiteralError::IntRange));
    assert_eq!(
        signed_literal((1 << 63) + 1, true),
        Err(LiteralError::IntRange)
    );
}

#[test]
fn string_literals_denote_strings() {
    assert_eq!(unescape_str(r#""""#), Ok(String::new()));
    assert_eq!(
        unescape_str(r#""a\"\\\/\b\f\n\r\té""#),
        Ok("a\"\\/\u{8}\u{c}\n\r\té".to_owned())
    );
    assert_eq!(unescape_str("\"\\u0041\""), Ok("A".to_owned()));
    assert_eq!(
        unescape_str("\"\\ud83d\\ude00\""),
        Ok("\u{1f600}".to_owned())
    );
    for text in [
        r#""\uD800""#,
        r#""\ude00""#,
        r#""\u12""#,
        r#""\x""#,
        r#""\""#,
        "a",
    ] {
        assert_eq!(unescape_str(text), Err(LiteralError::StringEscape), "{text}");
    }
}

/// Whatever the string, its escape reads back as it.
#[test]
fn an_escaped_string_reads_back() {
    assert_eq!(escape("a\n\"\u{1}\u{7f}é"), "\"a\\n\\\"\\u0001\\u007fé\"");
    for s in ["", "plain", "\\\"/", "\u{0}\u{8}\u{c}\r\t\u{85}", "日本\u{10ffff}"] {
        assert_eq!(unescape_str(&escape(s)), Ok(s.to_owned()), "{s:?}");
    }
}

#[test]
fn a_bad_literal_says_what_it_is() {
    for (error, code) in [
        (LiteralError::IntUnderscore, "lit/int-underscore"),
        (LiteralError::IntLeadingZero, "lit/int-leading-zero"),
        (LiteralError::IntRange, "lit/int-range"),
        (LiteralError::StringEscape, "lit/string-escape"),
    ] {
        assert_eq!(error.code().as_str(), code);
        assert!(!error.message().is_empty());
    }
}

// ---- text ----------------------------------------------------------------------------

#[test]
fn numbers_are_written_out() {
    let mut out = String::new();
    push_decimal(&mut out, u64::MAX);
    push_signed(&mut out, i64::MIN);
    push_signed(&mut out, 0);
    push_hexadecimal(&mut out, 0xbeef, 8);
    assert_eq!(out, "18446744073709551615-922337203685477580800000beef");
    assert_eq!(around("<", "a", ">"), "<a>");
    assert!(comes_before("a", "b") && !comes_before("b", "a") && !comes_before("a", "a"));
    assert!(comes_before("a", "ab") && comes_before("z", "é"));
    assert!(same_text("é", "é") && !same_text("a", "A"));
    let mut tagged = "x ".to_owned();
    push_tagged(&mut tagged, "var", "X");
    assert_eq!(tagged, "x (var X)");
}

// ---- diagnostics ------------------------------------------------------------------------

#[test]
fn a_sink_keeps_what_is_reported() {
    let mut sink = Diagnostics::new();
    assert!(!sink.has_errors());
    let span = NodeSpan { start: 1, end: 4 };
    sink.error(Code::RejectNoValue, "no value".to_owned(), span);
    assert!(sink.has_errors());
    assert_eq!(sink.len(), 1);
    let first = &sink.entries()[0];
    assert_eq!(first.code.as_str(), "reject/no-value");
    assert_eq!(first.message, "no value");
    assert_eq!(first.span, span);
    assert_eq!(narrow_offset(7), 7);
    assert_eq!(narrow_offset(usize::MAX), u32::MAX);
}

#[test]
fn tokens_are_handed_over_once() {
    let span = Span { start: 0, end: 1 };
    let mut lexed = Lexed::new(vec![Token::UId], vec![span]);
    assert_eq!(lexed.create_tokens(), Some((vec![Token::UId], vec![span])));
    assert_eq!(lexed.create_tokens(), None);
    let error = create_diagnostic(span, "lost".to_owned());
    assert_eq!((error.message.as_str(), error.span), ("lost", span));
}

/// Applications nest within a statement, brackets everywhere.
#[test]
fn nesting_is_counted_a_statement_at_a_time() {
    let deep = vec![Token::QId; 257];
    assert_eq!(nesting_overflow(&deep), Some(256));
    assert_eq!(nesting_overflow(&deep[..256]), None);

    let mut flat = vec![];
    for _ in 0..1000 {
        flat.extend([Token::QId, Token::Underscore, Token::Semi]);
    }
    assert_eq!(nesting_overflow(&flat), None);

    let mut bracketed = vec![Token::LBrace];
    bracketed.extend(flat);
    assert_eq!(nesting_overflow(&bracketed), Some(1 + 255 * 3));
    assert_eq!(nesting_overflow(&[Token::RBrace, Token::LBrace]), None);
}

// ---- errors -----------------------------------------------------------------------------

#[test]
fn codec_errors_say_what_is_wrong() {
    for (error, text) in [
        (StoreCodecError::UnexpectedEof, "unexpected end of input"),
        (
            StoreCodecError::UnknownSymbol(Symbol::Local(NameKey(3))),
            "unknown symbol: Local(Spur(4))",
        ),
        (StoreCodecError::UnexpectedMark(0x0a), "unexpected mark: 0xa"),
        (StoreCodecError::UnexpectedMark(0xab), "unexpected mark: 0xab"),
        (
            StoreCodecError::UnexpectedTerminator,
            "unexpected terminator",
        ),
        (StoreCodecError::BadInteger, "bad integer"),
        (StoreCodecError::BadRecord, "bad record"),
        (
            StoreCodecError::FactRefPredicate {
                expected: 1,
                found: 2,
            },
            "a reference declared to name predicate 1 names predicate 2",
        ),
        (
            StoreCodecError::ReservedFactId,
            "fact-id sequence 0 is reserved, so these bytes are not a fact reference",
        ),
        (StoreCodecError::Overflow, "integer overflow"),
        (StoreCodecError::Underflow, "integer underflow"),
    ] {
        assert_eq!(error.message(), text);
    }
}

#[test]
fn store_errors_say_what_is_wrong() {
    let id = FactId::new(PredicateId(1), 2).expect("an id");
    let raw = id.raw();
    for (error, text) in [
        (
            StoreError::Format(FormatError::Unreadable {
                found: FormatVersion(2),
                current: FormatVersion(1),
            }),
            "this database is format 2; this build reads format 1".to_owned(),
        ),
        (
            StoreError::Format(FormatError::Truncated {
                len: 3,
                expected: 10,
            }),
            "the format stamp is 3 bytes, not 10".to_owned(),
        ),
        (
            StoreError::Format(FormatError::BadMagic {
                found: [1, 2, 3, 4, 5, 6, 7, 255],
            }),
            "the format stamp does not begin with the Aperture magic (found [1, 2, 3, 4, 5, 6, \
             7, 255])"
                .to_owned(),
        ),
        (
            StoreError::Fact(FactError::UnknownPredicate("t.Foo".to_owned())),
            "cannot write this fact: no predicate called `t.Foo`".to_owned(),
        ),
        (
            StoreError::Fact(FactError::MissingField {
                predicate: "t.Foo".to_owned(),
                field: "id".to_owned(),
            }),
            "cannot write this fact: `t.Foo` declares a field `id` that this fact does not set"
                .to_owned(),
        ),
        (
            StoreError::DanglingFactId(id),
            format!(
                "dangling fact id FactId({raw}): key present but no entity in the `entities` \
                 column family"
            ),
        ),
        (
            StoreError::FactIdWidth {
                len: 3,
                expected: 8,
            },
            "`keys` row value is 3 bytes, not an 8-byte fact id".to_owned(),
        ),
        (
            StoreError::TruncatedEntity(id),
            format!("`entities` row for FactId({raw}) is truncated"),
        ),
        (
            StoreError::ShortKeyRow {
                len: 1,
                expected: 4,
            },
            "`keys` row is 1 bytes, shorter than the 4-byte predicate prefix".to_owned(),
        ),
        (
            StoreError::ShortScanBound {
                len: 1,
                expected: 4,
            },
            "scan bound is 1 bytes, shorter than the 4-byte predicate prefix".to_owned(),
        ),
        (
            StoreError::FactIdPredicateMismatch {
                expected: PredicateId(7),
                found: id,
            },
            format!("fact id FactId({raw}) is tagged predicate 1 but the fact is PredicateId(7)"),
        ),
        (
            StoreError::KeyAlreadyWritten {
                predicate: PredicateId(1),
                existing: id,
            },
            format!(
                "PredicateId(1) already holds a different fact keyed the same way, as \
                 FactId({raw}); a key is written once"
            ),
        ),
    ] {
        assert_eq!(error.message(), text);
    }
}

#[test]
fn a_bad_string_says_what_the_standard_library_says() {
    for bytes in [vec![0xff], vec![b'a', b'b', 0xe2, 0x82], vec![b'a', 0xf0, 0x9f, b'b']] {
        let error = String::from_utf8(bytes).unwrap_err().utf8_error();
        let bad = BadUtf8 {
            valid_up_to: error.valid_up_to(),
            error_len: error.error_len(),
        };
        assert_eq!(StoreCodecError::BadString(bad).message(), error.to_string());
    }
}

#[test]
fn a_backend_fault_is_quoted() {
    let words = fjall::Error::Poisoned.to_string();
    assert!(!words.is_empty());
    assert_eq!(
        StoreError::Backend(fjall::Error::Poisoned).message(),
        format!("fjall: {words}")
    );
    assert_eq!(
        ApertureError::Store(StoreError::Backend(fjall::Error::Poisoned)).message(),
        format!("store error: fjall: {words}")
    );
}

#[test]
fn faults_of_a_run_say_what_is_wrong() {
    for (error, text) in [
        (
            ApertureError::Decode(StoreCodecError::BadString(BadUtf8 {
                valid_up_to: 2,
                error_len: Some(1),
            })),
            "decode error: invalid utf-8 sequence of 1 bytes from index 2",
        ),
        (
            ApertureError::UseBeforeBind(Address(3)),
            "r3 was read before anything was bound to it",
        ),
        (
            ApertureError::SlotKindMismatch {
                address: Address(1),
                wanted: "a row",
                held: "a computed value",
            },
            "r1 holds a computed value where the plan wanted a row",
        ),
        (
            ApertureError::AddressOutOfBounds(Address(9)),
            "r9 is not a register in this plan",
        ),
        (ApertureError::AdvanceAfterClose, "advance of closed frame"),
        (
            ApertureError::CursorPlanMismatch { cursor: 2, plan: 1 },
            "resume cursor names 2 level(s) but the plan has 1",
        ),
        (
            ApertureError::CursorVersion {
                cursor: 2,
                executor: 1,
            },
            "resume cursor is version 2; this build reads version 1",
        ),
        (
            ApertureError::CursorPlan {
                cursor: PlanFingerprint(1),
                plan: PlanFingerprint(2),
            },
            "resume cursor was built from a different plan (PlanFingerprint(1), not \
             PlanFingerprint(2))",
        ),
        (
            ApertureError::CursorSourceOutOfRange {
                index: 3,
                sources: 2,
            },
            "resume cursor names source 3 of a level with 2",
        ),
        (ApertureError::BadResumeKey, "resume key not found"),
        (
            ApertureError::NotARecord { step: 4 },
            "a plan reads nested field 4 of a key field that is not a record",
        ),
        (
            ApertureError::NestedFieldOutOfRange { step: 4 },
            "a plan reads nested field 4 of a record with fewer fields than that",
        ),
        (
            ApertureError::ReferenceCrossesPredicate {
                expected: PredicateId(1),
                found: PredicateId(2),
            },
            "a reference declared to name PredicateId(1) names PredicateId(2), whose key has a \
             different shape",
        ),
        (ApertureError::Cancelled, "operation cancelled"),
        (
            ApertureError::Store(StoreError::Format(FormatError::Unstamped)),
            "store error: this database holds facts but carries no format stamp, so nothing says \
             which encoding wrote it",
        ),
    ] {
        assert_eq!(error.message(), text);
    }
}

#[test]
fn facts_that_do_not_fit_say_why() {
    let name = || "t.Foo".to_owned();
    for (error, text) in [
        (
            FactError::UnknownField {
                predicate: name(),
                field: "x".to_owned(),
            },
            "`t.Foo` declares no field called `x`",
        ),
        (
            FactError::TypeMismatch {
                predicate: name(),
                expected: "int".to_owned(),
                got: "str".to_owned(),
            },
            "`t.Foo` expects int here, but this fact offers str",
        ),
        (
            FactError::UnexpectedValue(name()),
            "`t.Foo` has no value side, but this fact offers one",
        ),
        (
            FactError::MissingValue(name()),
            "`t.Foo` declares a value side, but this fact offers none",
        ),
        (
            FactError::Codec(StoreCodecError::Overflow),
            "integer overflow",
        ),
    ] {
        assert_eq!(error.message(), text);
    }
    assert_eq!(
        FactIdError::FactIdSequence {
            sequence: 0,
            max: 7
        }
        .message(),
        "fact-id sequence 0 is not in 1..=7"
    );
    assert_eq!(
        FactIdError::PredicateIdTooWide {
            predicate: 9,
            max: 7
        }
        .message(),
        "predicate id 9 does not fit a fact id, whose tag holds at most 7"
    );
}
