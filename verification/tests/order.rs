//! Orders of a query's statements.

use focus::reorder::{reorder, Deps, Placement, StmtDeps};
use focus::schema::{LocalInterner, SchemaInterner, Symbol};
use lasso::Rodeo;

/// Some variables.
fn vars(names: &[&str]) -> (LocalInterner, Vec<Symbol>) {
    let mut interner =
        LocalInterner::new(SchemaInterner::new(Rodeo::default().into_reader()));
    let symbols = names.iter().map(|n| interner.get_or_intern(n)).collect();
    (interner, symbols)
}

fn deps(stmts: &[(Vec<Symbol>, Vec<Symbol>)]) -> Deps {
    placed(stmts, Placement::Written)
}

fn placed(stmts: &[(Vec<Symbol>, Vec<Symbol>)], placement: Placement) -> Deps {
    Deps::new(
        stmts
            .iter()
            .map(|(captures, reads)| StmtDeps {
                captures: captures.clone().into(),
                reads: reads.clone().into(),
                placement,
            })
            .collect::<Vec<_>>(),
    )
}

/// The identity, for every size — including none.
#[test]
fn reorder_is_the_identity() {
    let (_i, v) = vars(&["X", "Y"]);

    for stmts in [
        vec![],
        vec![(vec![v[0]], vec![])],
        vec![
            (vec![v[0]], vec![]),
            (vec![v[1]], vec![v[0]]),
            (vec![], vec![v[1]]),
        ],
    ] {
        let deps = deps(&stmts);
        let order = reorder(&deps);

        assert_eq!(
            order.as_slice(),
            (0..stmts.len()).collect::<Vec<_>>().as_slice(),
            "an order that binds before it reads is kept"
        );
    }
}

/// An order is respected exactly when every read is captured earlier.
#[test]
fn respects_is_bound_before_read() {
    let (_i, v) = vars(&["X", "Y"]);

    // 0 captures X; 1 reads X.
    let graph = deps(&[(vec![v[0]], vec![]), (vec![v[1]], vec![v[0]])]);
    assert!(graph.respects(&[0, 1]));
    assert!(!graph.respects(&[1, 0]), "1 reads X before 0 binds it");

    // Either statement can capture X, so either order works.
    let either = deps(&[(vec![v[0]], vec![]), (vec![v[0]], vec![])]);
    assert!(either.respects(&[0, 1]));
    assert!(either.respects(&[1, 0]));

    // A read nothing captures cannot be ordered at all.
    let orphan = deps(&[(vec![], vec![v[1]])]);
    assert!(!orphan.respects(&[0]));

    // Not a permutation, so not an order of this graph.
    assert!(!graph.respects(&[0]));
    assert!(!graph.respects(&[0, 0]));
}

/// Antichains layer the statements by what their reads need.
#[test]
fn antichains_layer_by_what_is_runnable() {
    let (_i, v) = vars(&["X", "Y", "Z"]);

    // 0 and 2 need nothing; 1 reads X (from 0); 3 reads Y (from 1).
    let graph = deps(&[
        (vec![v[0]], vec![]),
        (vec![v[1]], vec![v[0]]),
        (vec![v[2]], vec![]),
        (vec![], vec![v[1]]),
    ]);

    assert_eq!(
        graph.antichains(),
        Some(vec![vec![0, 2], vec![1], vec![3]]),
        "one layer per round of what the previous layers bound"
    );

    let independent = deps(&[(vec![v[0]], vec![]), (vec![v[1]], vec![])]);
    assert_eq!(independent.antichains(), Some(vec![vec![0, 1]]));

    // Nothing captures Z, so no layering exists.
    let stuck = deps(&[(vec![v[0]], vec![]), (vec![], vec![v[2]])]);
    assert_eq!(stuck.antichains(), None);

    // A cycle of reads: each needs what the other binds.
    let cycle = deps(&[(vec![v[0]], vec![v[1]]), (vec![v[1]], vec![v[0]])]);
    assert_eq!(cycle.antichains(), None);

    assert_eq!(Deps::new(vec![]).antichains(), Some(vec![]));
}

/// Every antichain layering is an order the graph respects, and so is the chosen order.
#[test]
fn a_layering_is_an_order_that_respects_the_graph() {
    let (_i, v) = vars(&["X", "Y", "Z"]);
    let graph = deps(&[
        (vec![v[0]], vec![]),
        (vec![v[1]], vec![v[0]]),
        (vec![v[2]], vec![]),
        (vec![], vec![v[1]]),
    ]);

    let flattened: Vec<usize> = graph
        .antichains()
        .expect("layerable")
        .into_iter()
        .flatten()
        .collect();

    assert!(graph.respects(&flattened));
    assert!(graph.respects(&reorder(&graph)));
}

/// The statements of one layer run in any order, as long as the layers keep theirs.
#[test]
fn a_layer_runs_in_any_order() {
    let (_i, v) = vars(&["X", "Y", "Z"]);
    let graph = deps(&[
        (vec![v[0]], vec![]),
        (vec![v[1]], vec![v[0]]),
        (vec![v[2]], vec![]),
        (vec![], vec![v[0], v[2]]),
    ]);

    assert_eq!(graph.antichains(), Some(vec![vec![0, 2], vec![1, 3]]));
    for order in [[0, 2, 1, 3], [2, 0, 1, 3], [0, 2, 3, 1], [2, 0, 3, 1]] {
        assert!(graph.respects(&order), "{order:?}");
    }
    assert!(!graph.respects(&[0, 1, 3, 2]));
}

/// A statement that reads before its source order binds is moved after what binds it.
#[test]
fn a_read_before_its_binding_is_moved() {
    let (_i, v) = vars(&["X", "Y"]);
    let graph = deps(&[(vec![], vec![v[0]]), (vec![v[0]], vec![])]);

    assert!(!graph.respects(&[0, 1]));
    assert_eq!(reorder(&graph), vec![1, 0]);
    assert!(graph.respects(&reorder(&graph)));
}

#[test]
fn a_graph_no_order_respects_keeps_every_statement() {
    let (_i, v) = vars(&["X", "Y"]);
    let graph = deps(&[(vec![v[0]], vec![v[1]]), (vec![v[1]], vec![v[0]])]);
    let mut order = reorder(&graph);

    assert!(!graph.respects(&order));
    order.sort_unstable();
    assert_eq!(order, vec![0, 1]);
}

#[test]
fn a_graph_knows_its_statements() {
    let (_i, v) = vars(&["X"]);
    let graph = placed(&[(vec![v[0]], vec![])], Placement::Floating);

    assert_eq!(graph.len(), 1);
    assert!(!graph.is_empty());
    assert!(Deps::new(vec![]).is_empty());
    assert_eq!(graph.stmt(0).expect("a statement").captures.as_ref(), [v[0]]);
    assert!(graph.stmt(1).is_none());
}
