use geolis::error::OperationError;
use geolis::ridge::{pair_ridge_traversals, sort_traversals};
use geolis::skeleton::SkelArc;

fn failed(r: Result<Vec<SkelArc>, OperationError>) -> String {
    match r {
        Err(OperationError::Failed(m)) => m,
        other => panic!("expected Failed, got {other:?}"),
    }
}

#[test]
fn traversals_sort_lexicographically() {
    let t = vec![(5, 6, 1), (4, 5, 2), (5, 6, 0), (4, 5, 0), (4, 6, 9), (4, 5, 2)];
    assert_eq!(
        sort_traversals(&t),
        vec![(4, 5, 0), (4, 5, 2), (4, 5, 2), (4, 6, 9), (5, 6, 0), (5, 6, 1)]
    );
    assert!(sort_traversals(&vec![]).is_empty());
}

#[test]
fn each_segment_walked_twice_becomes_one_ridge() {
    let t = vec![(5, 6, 1), (4, 5, 2), (5, 6, 3), (4, 5, 0)];
    let arcs = pair_ridge_traversals(&t).unwrap();
    assert_eq!(
        arcs,
        vec![
            SkelArc { from: 4, to: 5, faces: [0, 2] },
            SkelArc { from: 5, to: 6, faces: [1, 3] },
        ]
    );
    assert!(pair_ridge_traversals(&vec![]).unwrap().is_empty());
}

#[test]
fn a_segment_walked_once_is_unpaired() {
    let unpaired = "straight skeleton: unpaired ridge segment in flat cycle";
    assert_eq!(failed(pair_ridge_traversals(&vec![(4, 5, 0)])), unpaired);
    assert_eq!(failed(pair_ridge_traversals(&vec![(4, 6, 1), (4, 5, 0)])), unpaired);
    assert_eq!(
        failed(pair_ridge_traversals(&vec![(4, 5, 0), (4, 5, 1), (6, 7, 2)])),
        unpaired
    );
}

#[test]
fn a_segment_walked_three_times_is_overtraversed() {
    assert_eq!(
        failed(pair_ridge_traversals(&vec![(4, 5, 2), (4, 5, 0), (4, 5, 1)])),
        "straight skeleton: overtraversed ridge segment in flat cycle"
    );
}
