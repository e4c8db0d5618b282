//! The two executors over a store in memory.

use std::sync::Arc;

use byteview::ByteView;
use focus::answers::collect_answers;
use focus::error::{ApertureError, StoreCodecError, StoreError};
use focus::exec;
use focus::exec::{fmt_slot, hex, Slot};
use focus::fixtures::{collect_rows, compose, i64_field, interner_with, str_field};
use focus::iter::{Address, Executor, Iteratee, Row, Stream};
use focus::mem_store::MemStore;
use focus::plan::{
    Access, FactId, FactStore, FieldPath, Generator, Plan, Project, Residual, ResidualOp, RowScan,
    SeekKey, SeekKeyPart,
};
use focus::program::{Derived, Level, Program, Source, Step, Test};
use focus::schema::{LocalInterner, PredicateId, PredicateTy, SchemaInterner, Symbol};
use focus::tuple::{put_fact_id, put_str, Value};
use lasso::Rodeo;
use tokio_util::sync::CancellationToken;

const EDGE: PredicateId = PredicateId(0);
const NODE: PredicateId = PredicateId(1);
const REF: PredicateId = PredicateId(2);

fn enc_str(s: &str) -> Vec<u8> {
    let mut b = Vec::new();
    put_str(&mut b, s);
    b
}

fn run(store: MemStore, plan: Plan) -> Vec<Value> {
    let interner = LocalInterner::new(SchemaInterner::new(Rodeo::default().into_reader()));
    let cancel = CancellationToken::new();
    let mut ex = Executor::new(store, plan);

    let out = ex
        .enumerate(
            Vec::<Value>::new(),
            |mut acc: Vec<Value>, row: Row<'_, MemStore>| {
                acc.push(row.to_value(&interner)?);
                Ok(Stream::Continue(acc))
            },
            &cancel,
        )
        .expect("query failed");

    match out {
        Iteratee::Done(v) | Iteratee::Suspended(v, _) => v,
    }
}

// A residual on a key field is evaluated against the field's value, consistently with
// seek splices and projection — so it filters on the field, not on the prefix bytes.
#[test]
fn residual_eq_const_on_key_field_filters_correctly() {
    let pred = PredicateId(0);

    let mut store = MemStore::new();
    store.insert(pred, enc_str("alpha"), 1);
    store.insert(pred, enc_str("beta"), 2);
    store.insert(pred, enc_str("gamma"), 3);

    let plan = Plan {
        nvars: 1,
        body: Box::new([Generator {
            access: Access {
                predicate_id: pred,
                seek_key: SeekKey::Prefix(Box::new([])),
            },
            binds: Box::new([Address::new(0)]),
            residuals: Box::new([Residual {
                path: FieldPath::field(0),
                op: ResidualOp::EqConst(enc_str("beta").into_boxed_slice()),
            }]),
        }]),
        head: Project::RegisterField {
            address: Address::new(0),
            path: FieldPath::field(0),
            ty: PredicateTy::Str,
        },
    };

    assert_eq!(run(store, plan), vec![Value::Str("beta".to_string())]);
}

// ---- a join, suspended and taken up again -------------------------------------

fn id(predicate: PredicateId, sequence: u64) -> FactId {
    FactId::new(predicate, sequence).expect("an id")
}

fn reference(predicate: PredicateId, sequence: u64) -> Vec<u8> {
    let mut out = vec![];
    put_fact_id(&mut out, id(predicate, sequence));
    out
}

/// Edges (1,2), (1,3), (2,3), (3,9); nodes 2 and 3; references to edges 1 and 3.
fn store() -> MemStore {
    let mut store = MemStore::new();
    for (at, (from, to)) in [(1, 2), (1, 3), (2, 3), (3, 9)].iter().enumerate() {
        store.insert_valued(
            EDGE,
            compose(&[&i64_field(*from), &i64_field(*to)]),
            at as u64 + 1,
            str_field("edge"),
        );
    }
    store.insert(NODE, i64_field(2), 1);
    store.insert(NODE, i64_field(3), 2);
    store.insert(REF, reference(EDGE, 1), 1);
    store.insert(REF, reference(EDGE, 3), 2);
    store
}

fn scan(predicate: PredicateId, register: usize) -> Generator {
    Generator {
        access: Access {
            predicate_id: predicate,
            seek_key: SeekKey::Prefix(Box::new([])),
        },
        binds: Box::new([Address::new(register)]),
        residuals: Box::new([]),
    }
}

fn int_of(register: usize, field: usize) -> Project {
    Project::RegisterField {
        address: Address::new(register),
        path: FieldPath::field(field),
        ty: PredicateTy::Int,
    }
}

/// Every edge whose end is a node: the node is sought by the edge's second field.
fn join() -> Plan {
    let mut inner = scan(NODE, 1);
    inner.access.seek_key = SeekKey::Composite(Box::new([SeekKeyPart::RegisterField {
        address: Address::new(0),
        path: FieldPath::field(1),
    }]));
    Plan {
        nvars: 2,
        body: Box::new([scan(EDGE, 0), inner]),
        head: int_of(0, 1),
    }
}

fn ints(ns: &[i64]) -> Vec<Value> {
    ns.iter().copied().map(Value::Int).collect()
}

#[test]
fn a_join_seeks_what_the_outer_row_names() {
    let interner = interner_with(&[]);
    let rows = collect_rows(store(), join(), &interner).expect("run");
    assert_eq!(rows, ints(&[2, 3, 3]));
}

#[test]
fn a_composite_key_is_its_fields_back_to_back() {
    assert_eq!(
        compose(&[&i64_field(1), &str_field("a")]),
        [i64_field(1), str_field("a")].concat()
    );
    assert_eq!(compose(&[]), Vec::<u8>::new());
}

/// A row's identity is spliced into a seek, and compared where the seek has closed.
#[test]
fn a_reference_is_followed_by_its_fact() {
    let interner = interner_with(&[]);
    let mut inner = scan(REF, 1);
    inner.access.seek_key =
        SeekKey::Composite(Box::new([SeekKeyPart::RegisterFactId(Address::new(0))]));
    let sought = Plan {
        nvars: 2,
        body: Box::new([scan(EDGE, 0), inner]),
        head: Project::FactRef(Address::new(0)),
    };
    let wanted = vec![Value::FactRef(id(EDGE, 1)), Value::FactRef(id(EDGE, 3))];
    assert_eq!(
        collect_rows(store(), sought, &interner).expect("run"),
        wanted
    );

    let mut inner = scan(REF, 1);
    inner.residuals = Box::new([Residual {
        path: FieldPath::field(0),
        op: ResidualOp::EqRegisterFactId(Address::new(0)),
    }]);
    let filtered = Plan {
        nvars: 2,
        body: Box::new([scan(EDGE, 0), inner]),
        head: Project::FactRef(Address::new(0)),
    };
    assert_eq!(
        collect_rows(store(), filtered, &interner).expect("run"),
        wanted
    );
}

#[test]
fn a_filter_compares_with_a_field_of_an_outer_row() {
    let interner = interner_with(&[]);
    let mut inner = scan(EDGE, 1);
    inner.residuals = Box::new([Residual {
        path: FieldPath::field(0),
        op: ResidualOp::EqRegisterField {
            address: Address::new(0),
            path: FieldPath::field(1),
        },
    }]);
    let plan = Plan {
        nvars: 2,
        body: Box::new([scan(EDGE, 0), inner]),
        head: int_of(1, 1),
    };
    // (1,2)-(2,3), (1,3)-(3,9), (2,3)-(3,9).
    assert_eq!(
        collect_rows(store(), plan, &interner).expect("run"),
        ints(&[3, 9, 9])
    );
}

#[test]
fn a_head_reads_values_and_builds_records() {
    let interner = interner_with(&["from", "what"]);
    let name = |s: &str| -> Symbol { interner.get(s).expect("a name") };
    let plan = Plan {
        nvars: 1,
        body: Box::new([{
            let mut level = scan(EDGE, 0);
            level.access.seek_key = SeekKey::Prefix(i64_field(2).into_boxed_slice());
            level
        }]),
        head: Project::Record(vec![
            (name("from"), int_of(0, 0)),
            (
                name("what"),
                Project::Value {
                    address: Address::new(0),
                    ty: PredicateTy::Str,
                },
            ),
        ]),
    };
    assert_eq!(
        collect_rows(store(), plan, &interner).expect("run"),
        vec![Value::Record(vec![
            ("from".to_owned(), Value::Int(2)),
            ("what".to_owned(), Value::Str("edge".to_owned())),
        ])]
    );
}

/// A run stopped after any row and taken up again yields the rows it would have.
#[test]
fn a_cursor_leads_back() {
    let interner = interner_with(&[]);
    let model = collect_rows(store(), join(), &interner).expect("run");

    for cut in 1..=model.len() {
        let mut first = Executor::new(store(), join());
        let stopped = first
            .enumerate(
                Vec::<Value>::new(),
                |mut acc: Vec<Value>, row: Row<'_, MemStore>| {
                    acc.push(row.to_value(&interner)?);
                    if acc.len() == cut {
                        Ok(Stream::Suspend(acc))
                    } else {
                        Ok(Stream::Continue(acc))
                    }
                },
                &CancellationToken::new(),
            )
            .expect("run");
        let Iteratee::Suspended(rows, cursor) = stopped else {
            panic!("the run was not stopped");
        };
        let mut second = Executor::resume(store(), join(), cursor).expect("resume");
        let ended = second
            .enumerate(
                rows,
                |mut acc: Vec<Value>, row: Row<'_, MemStore>| {
                    acc.push(row.to_value(&interner)?);
                    Ok(Stream::Continue(acc))
                },
                &CancellationToken::new(),
            )
            .expect("run");
        match ended {
            Iteratee::Done(rows) => assert_eq!(rows, model, "cut after {cut}"),
            Iteratee::Suspended(..) => panic!("nothing stops the second run"),
        }
    }
}

/// A cursor of one plan over a store that has lost its row is refused.
#[test]
fn a_cursor_is_not_trusted() {
    let cursor = || {
        let mut executor = Executor::new(store(), join());
        match executor
            .enumerate(
                (),
                |_: (), _: Row<'_, MemStore>| Ok(Stream::Suspend(())),
                &CancellationToken::new(),
            )
            .expect("run")
        {
            Iteratee::Suspended(_, cursor) => cursor,
            Iteratee::Done(_) => panic!("the run was not stopped"),
        }
    };

    let gone = Executor::resume(MemStore::new(), join(), cursor());
    assert!(matches!(gone, Err(ApertureError::BadResumeKey)));

    let short = Plan {
        nvars: 1,
        body: Box::new([scan(EDGE, 0)]),
        head: int_of(0, 0),
    };
    let longer = Executor::resume(store(), short, cursor());
    assert!(matches!(
        longer,
        Err(ApertureError::CursorPlanMismatch { cursor: 2, plan: 1 })
    ));
}

#[test]
fn a_cancelled_run_ends() {
    let token = CancellationToken::new();
    token.cancel();
    let mut many = MemStore::new();
    for at in 1..6000 {
        many.insert(NODE, i64_field(at), at as u64);
    }
    let mut level = scan(NODE, 0);
    level.residuals = Box::new([Residual {
        path: FieldPath::field(0),
        op: ResidualOp::EqConst(i64_field(-1).into_boxed_slice()),
    }]);
    let plan = Plan {
        nvars: 1,
        body: Box::new([level]),
        head: int_of(0, 0),
    };
    let mut executor = Executor::new(many, plan);
    let ended = executor.enumerate(
        0usize,
        |n: usize, _: Row<'_, MemStore>| Ok(Stream::Continue(n + 1)),
        &token,
    );
    assert!(matches!(ended, Err(ApertureError::Cancelled)));
}

/// A plan without levels answers one row, and cannot be stopped.
#[test]
fn a_plan_without_levels_answers_once() {
    let plan = Plan {
        nvars: 0,
        body: Box::new([]),
        head: Project::Lit(Value::Int(42)),
    };
    let interner = interner_with(&[]);
    let mut executor = Executor::new(store(), plan);
    let ended = executor
        .enumerate(
            vec![],
            |mut acc: Vec<Value>, row: Row<'_, MemStore>| {
                acc.push(row.to_value(&interner)?);
                Ok(Stream::Suspend(acc))
            },
            &CancellationToken::new(),
        )
        .expect("run");
    match ended {
        Iteratee::Done(rows) => assert_eq!(rows, ints(&[42])),
        Iteratee::Suspended(..) => panic!("there is nothing to take up again"),
    }
}

// ---- what a broken plan is answered ---------------------------------------------

#[test]
fn a_register_must_be_bound_before_it_is_read() {
    let interner = interner_with(&[]);
    let unbound = Plan {
        nvars: 2,
        body: Box::new([scan(NODE, 0)]),
        head: int_of(1, 0),
    };
    assert!(matches!(
        collect_rows(store(), unbound, &interner),
        Err(ApertureError::UseBeforeBind(Address(1)))
    ));

    let outside = Plan {
        nvars: 1,
        body: Box::new([scan(NODE, 0)]),
        head: int_of(7, 0),
    };
    assert!(matches!(
        collect_rows(store(), outside, &interner),
        Err(ApertureError::AddressOutOfBounds(Address(7)))
    ));
}

#[test]
fn a_path_into_a_scalar_is_no_path() {
    let interner = interner_with(&[]);
    let stepped = Plan {
        nvars: 1,
        body: Box::new([scan(NODE, 0)]),
        head: Project::RegisterField {
            address: Address::new(0),
            path: FieldPath::nested(0, vec![3]),
            ty: PredicateTy::Int,
        },
    };
    assert!(matches!(
        collect_rows(store(), stepped, &interner),
        Err(ApertureError::NotARecord { step: 3 })
    ));
}

#[test]
fn a_value_read_needs_a_fact() {
    let interner = interner_with(&[]);
    let mistyped = Plan {
        nvars: 1,
        body: Box::new([scan(NODE, 0)]),
        head: Project::RegisterField {
            address: Address::new(0),
            path: FieldPath::field(0),
            ty: PredicateTy::Str,
        },
    };
    assert!(matches!(
        collect_rows(store(), mistyped, &interner),
        Err(ApertureError::Decode(StoreCodecError::UnexpectedMark(0x15)))
    ));
}

// ---- the store -------------------------------------------------------------------

fn rows_between(store: &MemStore, lo: &[u8], hi: Option<&[u8]>) -> Vec<(Vec<u8>, FactId)> {
    let mut scan = store.scan(lo, hi).expect("a scan");
    let mut out = vec![];
    while let Some(row) = scan.next_row() {
        let (row, id) = row.expect("a row");
        out.push((row.to_vec(), id));
    }
    out
}

#[test]
fn a_scan_stays_in_its_predicate() {
    let store = store();
    let rows = rows_between(&store, &[0, 0, 0, 1], None);
    assert_eq!(
        rows,
        vec![
            ([vec![0, 0, 0, 1], i64_field(2)].concat(), id(NODE, 1)),
            ([vec![0, 0, 0, 1], i64_field(3)].concat(), id(NODE, 2)),
        ]
    );
    let upper = [vec![0, 0, 0, 1], i64_field(3)].concat();
    assert_eq!(rows_between(&store, &[0, 0, 0, 1], Some(&upper)).len(), 1);
    assert!(matches!(
        store.scan(&[0, 0], None),
        Err(ApertureError::Store(StoreError::ShortScanBound {
            len: 2,
            expected: 4
        }))
    ));
}

#[test]
fn a_fact_is_found_behind_its_id() {
    let store = store();
    let entity = store.point(id(EDGE, 3)).expect("a read").expect("a fact");
    assert_eq!(
        entity.key.to_vec(),
        compose(&[&i64_field(2), &i64_field(3)])
    );
    assert_eq!(entity.value.to_vec(), str_field("edge"));
    assert!(store.point(id(EDGE, 99)).expect("a read").is_none());
}

/// A second fact under one row takes its place in the index.
#[test]
fn a_row_is_the_key_of_one_fact() {
    let mut store = MemStore::new();
    store.insert(NODE, i64_field(1), 1);
    store.insert(NODE, i64_field(1), 2);
    let rows = rows_between(&store, &[0, 0, 0, 1], None);
    assert_eq!(rows.len(), 1);
    assert_eq!(rows[0].1, id(NODE, 2));
}

// ---- the pump -----------------------------------------------------------------------

/// What the first register holds, shown.
fn first_slot(executor: &exec::Executor<MemStore>) -> String {
    fmt_slot(executor.env().get(Address::new(0)).expect("a slot"))
}

fn pumped(executor: &mut exec::Executor<MemStore>) -> Vec<String> {
    let mut out = vec![];
    while executor.pump().expect("a turn") == exec::Step::Continue {
        out.push(first_slot(executor));
    }
    out
}

#[test]
fn the_pump_hands_out_a_row_at_a_time() {
    let mut executor = exec::Executor::new(Arc::new(store()), Arc::new(join()));
    let rows = pumped(&mut executor);
    assert_eq!(rows.len(), 3);
    assert_eq!(
        rows[0],
        format!(
            "fact#1 pred=0 │ {}",
            hex(&compose(&[&i64_field(1), &i64_field(2)]))
        )
    );
    assert_eq!(executor.pump().expect("a turn"), exec::Step::Done);
}

/// A run that is over stays over, and its registers stay as they are.
#[test]
fn a_pump_that_is_done_stays_done() {
    let mut executor = exec::Executor::new(Arc::new(store()), Arc::new(join()));
    pumped(&mut executor);
    let shown = executor.env().table();
    for _ in 0..3 {
        assert_eq!(executor.pump().expect("a turn"), exec::Step::Done);
        assert_eq!(executor.env().table(), shown);
    }

    let token = executor.suspend();
    let mut again =
        exec::Executor::resume(Arc::new(store()), Arc::new(join()), token).expect("resume");
    assert_eq!(again.pump().expect("a turn"), exec::Step::Done);
    assert_eq!(again.pump().expect("a turn"), exec::Step::Done);
}

/// A pump suspended after any row, or before the first, or after the last, goes on with
/// the rows it had yet to hand out.
#[test]
fn a_suspended_pump_goes_on() {
    let fresh = || exec::Executor::new(Arc::new(store()), Arc::new(join()));
    let model = pumped(&mut fresh());

    for cut in 0..=model.len() + 1 {
        let mut executor = fresh();
        for _ in 0..cut {
            executor.pump().expect("a turn");
        }
        let token = executor.suspend();
        let mut again =
            exec::Executor::resume(Arc::new(store()), Arc::new(join()), token).expect("resume");
        let rest = pumped(&mut again);
        assert_eq!(rest, model[cut.min(model.len())..], "cut after {cut}");
    }
}

/// Coming back to rows that are gone, a pump goes on with what follows them.
#[test]
fn a_pump_comes_back_to_what_is_left() {
    let mut executor = exec::Executor::new(Arc::new(store()), Arc::new(join()));
    executor.pump().expect("a turn");
    let token = executor.suspend();
    let lost = exec::Executor::resume(Arc::new(MemStore::new()), Arc::new(join()), token);
    assert!(matches!(lost, Err(ApertureError::BadResumeKey)));
}

#[test]
fn a_slot_is_shown_as_its_fact_and_bytes() {
    let row: ByteView = ByteView::from(vec![0, 0, 1, 2, 0xab, 0x0c]);
    let slot = Slot::Fact {
        id: id(EDGE, 5),
        key: row,
    };
    assert_eq!(fmt_slot(&slot), "fact#5 pred=258 │ ab 0c");
    assert_eq!(slot.bytes().to_vec(), vec![0, 0, 1, 2, 0xab, 0x0c]);

    let bare = Slot::Fact {
        id: id(EDGE, 5),
        key: ByteView::from(vec![0, 0, 0, 1]),
    };
    assert_eq!(fmt_slot(&bare), "fact#5 pred=1");

    let value = Slot::Value(ByteView::from(i64_field(-1)));
    assert_eq!(fmt_slot(&value), "15 7f ff ff ff ff ff ff ff");
    assert_eq!(value.field(0).expect("a field").to_vec(), i64_field(-1));
    assert!(value.field(1).is_err());
    assert_eq!(
        value.clone().value().to_vec(),
        i64_field(-1)
    );
    assert_eq!(hex(&[]), "(empty)");
}

#[test]
fn an_empty_register_says_so() {
    let env = exec::Env::new(2);
    assert!(matches!(
        env.get(Address::new(1)),
        Err(ApertureError::UseBeforeBind(Address(1)))
    ));
    assert!(matches!(
        env.get(Address::new(2)),
        Err(ApertureError::AddressOutOfBounds(Address(2)))
    ));
}

/// Widths are counted in bytes and padding in characters, and an empty environment has
/// no table.
#[test]
fn registers_are_shown_as_a_table() {
    assert_eq!(exec::Env::new(0).table(), Vec::<String>::new());

    let plain = |line: &String| {
        line.replace(exec::DIM, "")
            .replace(exec::BOLD, "")
            .replace(exec::RST, "")
    };
    let unbound = exec::Env::new(1).table();
    assert_eq!(
        unbound.iter().map(plain).collect::<Vec<_>>(),
        vec![
            "  ┌─────┬───────────┐",
            "  │ var │ bytes     │",
            "  ├─────┼───────────┤",
            "  │ v0  │ (unbound) │",
            "  └─────┴───────────┘",
        ]
    );
    assert_eq!(
        unbound[0],
        "  \u{1b}[2m┌─────┬───────────┐\u{1b}[0m"
    );

    let level = Plan {
        nvars: 1,
        body: Box::new([scan(NODE, 0)]),
        head: int_of(0, 0),
    };
    let mut executor = exec::Executor::new(Arc::new(store()), Arc::new(level));
    executor.pump().expect("a turn");
    let lines = executor.env().table();
    let shown = first_slot(&executor);
    let dashes = "─".repeat(shown.len() + 2);
    assert_eq!(plain(&lines[0]), format!("  ┌─────┬{dashes}┐"));
    assert_eq!(plain(&lines[3]), format!("  │ v0  │ {shown}   │"));
}

// ---- answering programs ----------------------------------------------------------

fn seek(predicate: PredicateId) -> Source {
    Source::Seek {
        access: Access {
            predicate_id: predicate,
            seek_key: SeekKey::Prefix(Box::new([])),
        },
        residuals: Box::new([]),
    }
}

fn level(sources: Vec<Source>, register: usize) -> Step {
    Step::Level(Level {
        sources: sources.into(),
        binds: Box::new([Address::new(register)]),
    })
}

fn fetch(predicate: PredicateId) -> Source {
    Source::Fetch {
        reference: Address::new(0),
        path: FieldPath::field(0),
        predicate,
        residuals: Box::new([]),
    }
}

fn program(nvars: usize, body: Vec<Step>, head: Project) -> Program {
    Program {
        nvars,
        body: body.into(),
        head,
    }
}

#[test]
fn a_reference_is_followed_to_the_fact_it_names() {
    let interner = interner_with(&[]);
    let follow = program(
        2,
        vec![level(vec![seek(REF)], 0), level(vec![fetch(EDGE)], 1)],
        int_of(1, 1),
    );
    assert_eq!(
        collect_answers(&store(), &follow, &interner).expect("answers"),
        ints(&[2, 3])
    );
}

/// A reference to another predicate than declared is reported, and so is one that
/// leads nowhere.
#[test]
fn a_reference_that_leads_astray_is_reported() {
    let interner = interner_with(&[]);
    let astray = program(
        2,
        vec![level(vec![seek(REF)], 0), level(vec![fetch(NODE)], 1)],
        int_of(1, 0),
    );
    assert!(matches!(
        collect_answers(&store(), &astray, &interner),
        Err(ApertureError::ReferenceCrossesPredicate {
            expected: NODE,
            found: EDGE
        })
    ));

    let mut dangling = MemStore::new();
    dangling.insert(REF, reference(EDGE, 9), 1);
    let follow = program(
        2,
        vec![level(vec![seek(REF)], 0), level(vec![fetch(EDGE)], 1)],
        int_of(1, 0),
    );
    let lost = id(EDGE, 9);
    match collect_answers(&dangling, &follow, &interner) {
        Err(ApertureError::Store(StoreError::DanglingFactId(found))) => assert_eq!(found, lost),
        other => panic!("expected a dangling id, got {other:?}"),
    }
}

/// Alternatives are answered one after another, none answers nothing, and a test of
/// none lets everything through.
#[test]
fn alternatives_and_tests_are_answered() {
    let interner = interner_with(&[]);
    let answers = |body: Vec<Step>| {
        collect_answers(&store(), &program(1, body, int_of(0, 0)), &interner).expect("answers")
    };
    assert_eq!(
        answers(vec![level(vec![seek(NODE), seek(EDGE)], 0)]),
        ints(&[2, 3, 1, 1, 2, 3])
    );
    assert_eq!(answers(vec![level(vec![], 0)]), ints(&[]));
    assert_eq!(
        answers(vec![
            level(vec![seek(NODE)], 0),
            Step::Test(Test::Absent(Box::new([]))),
            Step::Derive(Derived {
                bind: Address::new(0)
            }),
        ]),
        ints(&[2, 3])
    );
    assert_eq!(
        answers(vec![
            level(vec![seek(NODE)], 0),
            Step::Test(Test::Absent(Box::new([seek(EDGE)]))),
        ]),
        ints(&[])
    );
}

#[test]
fn an_answer_can_fail_in_its_head_or_its_steps() {
    let interner = interner_with(&[]);
    let head = program(1, vec![level(vec![seek(NODE)], 0)], int_of(4, 0));
    assert!(matches!(
        collect_answers(&store(), &head, &interner),
        Err(ApertureError::AddressOutOfBounds(Address(4)))
    ));
    let bind = program(1, vec![level(vec![seek(NODE)], 3)], int_of(0, 0));
    assert!(matches!(
        collect_answers(&store(), &bind, &interner),
        Err(ApertureError::AddressOutOfBounds(Address(3)))
    ));
}
