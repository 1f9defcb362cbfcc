use geolis::error::OperationError;
use geolis::skeleton::{distinct_nodes, trace_cells, SkelArc, Wavefront};

fn failed(r: Result<Vec<Vec<usize>>, OperationError>) -> String {
    match r {
        Err(OperationError::Failed(m)) => m,
        other => panic!("expected Failed, got {other:?}"),
    }
}

fn arc(from: usize, to: usize, f0: usize, f1: usize) -> SkelArc {
    SkelArc { from, to, faces: [f0, f1] }
}

#[test]
fn initial_wavefront_is_one_cycle() {
    let w = Wavefront::ring(4);
    assert_eq!(w.len(), 4);
    for v in 0..4 {
        assert_eq!(w.next_of(v), (v + 1) % 4);
        assert_eq!(w.prev_of(v), (v + 3) % 4);
        assert!(w.is_alive(v));
    }
    assert_eq!(w.cycle_len(2), 4);
    assert!(w.same_cycle(0, 3));
    assert_eq!(w.cycle_members(1).unwrap(), vec![1, 2, 3, 0]);
    assert!(w.any_alive());
}

#[test]
fn collapse_merges_two_neighbours_into_a_new_vertex() {
    let mut w = Wavefront::ring(4);
    let nv = w.collapse(0, 1);
    assert_eq!(nv, 4);
    assert_eq!(w.len(), 5);
    assert!(!w.is_alive(0) && !w.is_alive(1) && w.is_alive(4));
    assert_eq!(w.next_of(3), 4);
    assert_eq!(w.next_of(4), 2);
    assert_eq!(w.prev_of(4), 3);
    assert_eq!(w.prev_of(2), 4);
    assert_eq!(w.cycle_members(4).unwrap(), vec![4, 2, 3]);
    assert_eq!(w.cycle_len(3), 3);
}

#[test]
fn split_cuts_a_cycle_in_two() {
    // Hexagon; vertex 0 splits the front starting at vertex 3.
    let mut w = Wavefront::ring(6);
    let (a, b) = w.split(0, 3);
    assert_eq!((a, b), (6, 7));
    assert!(!w.is_alive(0));
    assert_eq!(w.cycle_members(a).unwrap(), vec![6, 1, 2, 3]);
    assert_eq!(w.cycle_members(b).unwrap(), vec![7, 4, 5]);
    assert!(!w.same_cycle(a, b));
    assert!(w.same_cycle(b, 5));
}

#[test]
fn retiring_every_vertex_leaves_no_wavefront() {
    let mut w = Wavefront::ring(3);
    for v in 0..3 {
        w.retire(v);
    }
    assert!(!w.any_alive());
    assert_eq!(w.next_of(0), 1);
}

#[test]
fn broken_cycle_is_reported() {
    let mut w = Wavefront::ring(4);
    // Collapsing two vertices that are not neighbours leaves vertex 1 on a
    // path that never comes back to it.
    w.collapse(0, 2);
    match w.cycle_members(1) {
        Err(OperationError::Failed(m)) => assert_eq!(m, "straight skeleton: broken wavefront cycle"),
        other => panic!("expected Failed, got {other:?}"),
    }
    assert_eq!(w.cycle_len(1), 6);
    assert!(!w.same_cycle(1, 0));
}

#[test]
fn square_cells_meet_at_the_apex() {
    // Square 0..4 whose four corners run into apex node 4; vertex i lies
    // between faces (edges) i - 1 and i.
    let arcs = vec![arc(0, 4, 3, 0), arc(1, 4, 0, 1), arc(2, 4, 1, 2), arc(3, 4, 2, 3)];
    let cells = trace_cells(4, &arcs).unwrap();
    assert_eq!(cells, vec![vec![0, 1, 4], vec![1, 2, 4], vec![2, 3, 4], vec![3, 0, 4]]);
}

#[test]
fn rectangle_cells_follow_the_ridge() {
    // Rectangle 0..4 (long edges 0 and 2) with ridge 4-5.
    let arcs = vec![
        arc(0, 4, 3, 0),
        arc(3, 4, 2, 3),
        arc(1, 5, 0, 1),
        arc(2, 5, 1, 2),
        arc(4, 5, 0, 2),
    ];
    let cells = trace_cells(4, &arcs).unwrap();
    assert_eq!(cells[0], vec![0, 1, 5, 4]);
    assert_eq!(cells[1], vec![1, 2, 5]);
    assert_eq!(cells[2], vec![2, 3, 4, 5]);
    assert_eq!(cells[3], vec![3, 0, 4]);
}

#[test]
fn each_cell_walks_distinct_arcs_of_its_face() {
    let arcs = vec![
        arc(0, 4, 3, 0),
        arc(3, 4, 2, 3),
        arc(1, 5, 0, 1),
        arc(2, 5, 1, 2),
        arc(4, 5, 0, 2),
    ];
    let cells = trace_cells(4, &arcs).unwrap();
    for (e, cell) in cells.iter().enumerate() {
        // Walk from the edge's end vertex through the chain back to its start.
        let mut walk: Vec<usize> = cell[1..].to_vec();
        walk.push(cell[0]);
        let mut used: Vec<usize> = Vec::new();
        for step in walk.windows(2) {
            let i = arcs
                .iter()
                .position(|a| {
                    (a.faces[0] == e || a.faces[1] == e)
                        && ((a.from == step[0] && a.to == step[1])
                            || (a.from == step[1] && a.to == step[0]))
                })
                .expect("an arc of the face joins the step");
            assert!(!used.contains(&i));
            used.push(i);
        }
    }
}

#[test]
fn no_edges_trace_no_cells() {
    assert!(trace_cells(0, &Vec::new()).unwrap().is_empty());
}

#[test]
fn a_missing_arc_disconnects_the_cell() {
    let arcs = vec![arc(0, 4, 3, 0), arc(2, 4, 1, 2), arc(3, 4, 2, 3)];
    assert_eq!(
        failed(trace_cells(4, &arcs)),
        "straight skeleton: cell trace for edge 0 is disconnected"
    );
    let arcs = vec![arc(0, 4, 3, 0), arc(1, 4, 0, 1), arc(2, 4, 1, 2)];
    assert_eq!(
        failed(trace_cells(4, &arcs)),
        "straight skeleton: cell trace for edge 2 is disconnected"
    );
}

#[test]
fn distinct_nodes_are_sorted_without_repeats() {
    assert_eq!(distinct_nodes(&vec![5, 2, 9, 2, 5, 0]), vec![0, 2, 5, 9]);
    assert_eq!(distinct_nodes(&vec![3, 3, 3]), vec![3]);
    assert!(distinct_nodes(&vec![]).is_empty());
}

#[test]
fn collapse_events_go_stale_when_the_front_is_rewired() {
    let mut w = Wavefront::ring(4);
    assert!(w.collapse_is_current(0, 1));
    assert!(!w.collapse_is_current(1, 0));
    let nv = w.collapse(0, 1);
    assert!(!w.collapse_is_current(0, 1));
    assert!(!w.collapse_is_current(1, 2));
    assert!(w.collapse_is_current(nv, 2));
    assert!(w.collapse_is_current(3, nv));
}

fn links_agree(w: &Wavefront) -> bool {
    (0..w.len()).all(|v| {
        !w.is_alive(v)
            || (w.is_alive(w.next_of(v))
                && w.is_alive(w.prev_of(v))
                && w.prev_of(w.next_of(v)) == v
                && w.next_of(w.prev_of(v)) == v)
    })
}

#[test]
fn events_keep_the_links_consistent() {
    let mut w = Wavefront::ring(7);
    assert!(links_agree(&w));
    let nv = w.collapse(2, 3);
    assert!(links_agree(&w));
    let (a, b) = w.split(0, nv);
    assert!(links_agree(&w));
    let left = w.cycle_members(a).unwrap();
    let right = w.cycle_members(b).unwrap();
    assert_eq!(left.len() + right.len(), 7);
    w.retire_all(&left);
    assert!(links_agree(&w));
    assert!(left.iter().all(|&v| !w.is_alive(v)));
    assert!(right.iter().all(|&v| w.is_alive(v)));
    w.retire_all(&right);
    assert!(!w.any_alive());
}
